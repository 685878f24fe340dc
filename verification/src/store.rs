//! The event store: an append-only log, kept in the order of its scan.
//!
//! Events are held in ascending order of their timestamps; events with the
//! same timestamp are held in ascending order of their ids. The store never
//! changes an event: it appends whole events and deletes whole events.

use vstd::prelude::*;
use crate::error::LedgerError;
use crate::event::{Action, Event, EventModel, Timestamp, event_models};

verus! {

/// The log of events.
#[derive(Debug, PartialEq, Eq)]
pub struct EventLog {
    events: Vec<Event>,
    next_id: i64,
}

/// The mathematical content of an [`EventLog`]: its events in scan order, and
/// the id that the next appended event gets.
pub ghost struct LogModel {
    pub events: Seq<EventModel>,
    pub next_id: int,
}

/// Whether `a` comes before `b` in a scan: by timestamp, then by id.
pub open spec fn precedes(a: EventModel, b: EventModel) -> bool {
    a.at < b.at || (a.at == b.at && a.id < b.id)
}

/// Whether the events stand in scan order.
pub open spec fn ordered(events: Seq<EventModel>) -> bool {
    forall|i: int, j: int| 0 <= i < j < events.len() ==> precedes(events[i], events[j])
}

/// Whether no two events share an id.
pub open spec fn distinct_ids(events: Seq<EventModel>) -> bool {
    forall|i: int, j: int| 0 <= i < j < events.len() ==> events[i].id != events[j].id
}

/// Whether some event has the id `id`.
pub open spec fn has_id(events: Seq<EventModel>, id: int) -> bool {
    exists|i: int| 0 <= i < events.len() && events[i].id == id
}

/// What holds of every log: scan order, distinct ids, ids below the next,
/// and no event without a task name.
pub open spec fn log_valid(log: LogModel) -> bool {
    &&& ordered(log.events)
    &&& distinct_ids(log.events)
    &&& 0 <= log.next_id <= i64::MAX
    &&& forall|i: int|
        0 <= i < log.events.len() ==> 0 <= (#[trigger] log.events[i]).id < log.next_id
            && log.events[i].task.len() > 0
}

/// Where `event` goes in `events`: behind the last event that precedes it.
pub open spec fn insertion_point(events: Seq<EventModel>, event: EventModel) -> int
    decreases events.len(),
{
    if events.len() == 0 {
        0
    } else if precedes(events.last(), event) {
        events.len() as int
    } else {
        insertion_point(events.drop_last(), event)
    }
}

/// The events of `task` among `events`, in their order.
pub open spec fn only_task(events: Seq<EventModel>, task: Seq<char>) -> Seq<EventModel>
    decreases events.len(),
{
    if events.len() == 0 {
        Seq::empty()
    } else if events.last().task == task {
        only_task(events.drop_last(), task).push(events.last())
    } else {
        only_task(events.drop_last(), task)
    }
}

/// The log after `event` was restored into it; a log that cannot take the
/// event stays as it is.
pub open spec fn restored(log: LogModel, event: EventModel) -> LogModel {
    if can_restore(log, event) {
        LogModel {
            events: log.events.insert(insertion_point(log.events, event), event),
            next_id: if event.id < log.next_id {
                log.next_id
            } else {
                event.id + 1
            },
        }
    } else {
        log
    }
}

/// Whether `log` can take `event` under the id it carries: the event names
/// its task, and its id is one that an event can have and that none has.
pub open spec fn can_restore(log: LogModel, event: EventModel) -> bool {
    event.task.len() > 0 && 0 <= event.id < i64::MAX && !has_id(log.events, event.id)
}

/// Whether `log` can take a new event of `task`: the task has a name, and
/// the log has an id left.
pub open spec fn can_append(log: LogModel, task: Seq<char>) -> bool {
    task.len() > 0 && log.next_id < i64::MAX
}

/// The event that an append to `log` writes.
pub open spec fn appended_event(log: LogModel, task: Seq<char>, action: Action, at: int) -> EventModel {
    EventModel { id: log.next_id, at, task, action }
}

/// The log after an append; a log that cannot take the event stays as it is.
pub open spec fn appended(log: LogModel, task: Seq<char>, action: Action, at: int) -> LogModel {
    if can_append(log, task) {
        let event = appended_event(log, task, action, at);
        LogModel {
            events: log.events.insert(insertion_point(log.events, event), event),
            next_id: log.next_id + 1,
        }
    } else {
        log
    }
}

/// The log after the event with the id `id` was deleted.
pub open spec fn deleted(log: LogModel, id: int) -> LogModel {
    if has_id(log.events, id) {
        let at = choose|i: int| 0 <= i < log.events.len() && log.events[i].id == id;
        LogModel { events: log.events.remove(at), next_id: log.next_id }
    } else {
        log
    }
}

/// Putting an event at its insertion point keeps a log in scan order.
pub proof fn lemma_insert_keeps_order(events: Seq<EventModel>, event: EventModel)
    requires
        ordered(events),
        !has_id(events, event.id),
    ensures
        0 <= insertion_point(events, event) <= events.len(),
        ordered(events.insert(insertion_point(events, event), event)),
    decreases events.len(),
{
    let at = insertion_point(events, event);
    if events.len() > 0 {
        let earlier = events.drop_last();
        if !precedes(events.last(), event) {
            assert(!has_id(earlier, event.id)) by {
                if has_id(earlier, event.id) {
                    let k = choose|k: int| 0 <= k < earlier.len() && earlier[k].id == event.id;
                    assert(events[k].id == event.id);
                }
            }
            lemma_insert_keeps_order(earlier, event);
            assert(events.last().id != event.id) by {
                assert(events[events.len() - 1] == events.last());
            }
            assert(events.insert(at, event) =~= earlier.insert(at, event).push(events.last()));
            let placed = earlier.insert(at, event);
            assert forall|i: int, j: int| 0 <= i < j < placed.len() + 1 implies precedes(
                placed.push(events.last())[i],
                placed.push(events.last())[j],
            ) by {
                if j == placed.len() {
                    if i < at {
                        assert(placed[i] == events[i]);
                    } else if i > at {
                        assert(placed[i] == events[i - 1]);
                    }
                } else {
                    assert(precedes(placed[i], placed[j]));
                }
            }
        } else {
            assert(events.insert(at, event) =~= events.push(event));
            assert forall|i: int, j: int| 0 <= i < j < events.len() + 1 implies precedes(
                events.push(event)[i],
                events.push(event)[j],
            ) by {
                if j == events.len() && i < events.len() - 1 {
                    assert(precedes(events[i], events[events.len() - 1]));
                }
            }
        }
    }
}

impl View for EventLog {
    type V = LogModel;

    closed spec fn view(&self) -> LogModel {
        LogModel { events: event_models(self.events@), next_id: self.next_id as int }
    }
}

impl EventLog {
    /// What holds of every log that this module hands out.
    pub open spec fn wf(&self) -> bool {
        log_valid(self@)
    }

    /// An empty log, whose first event gets the id 1.
    pub fn new() -> (log: EventLog)
        ensures
            log.wf(),
            log@ == (LogModel { events: Seq::empty(), next_id: 1 }),
    {
        let log = EventLog { events: Vec::new(), next_id: 1 };
        proof {
            assert(log@.events =~= Seq::empty());
        }
        log
    }

    /// The number of events in the log.
    pub fn len(&self) -> (n: usize)
        ensures
            n == self@.events.len(),
    {
        self.events.len()
    }

    /// The events as they are held: in scan order.
    pub fn events(&self) -> (events: &Vec<Event>)
        ensures
            event_models(events@) == self@.events,
    {
        &self.events
    }

    /// The id that the next appended event gets.
    pub fn next_id(&self) -> (id: i64)
        ensures
            id == self@.next_id,
    {
        self.next_id
    }

    /// Whether some event has the id `id`.
    pub fn contains_id(&self, id: i64) -> (found: bool)
        ensures
            found == has_id(self@.events, id as int),
    {
        let mut i: usize = 0;
        while i < self.events.len()
            invariant
                i <= self.events.len(),
                forall|k: int| 0 <= k < i ==> self@.events[k].id != id,
            decreases self.events.len() - i,
        {
            if self.events[i].id == id {
                proof {
                    assert(self@.events[i as int].id == id);
                }
                return true;
            }
            i += 1;
        }
        false
    }

    /// Puts `event` where the scan order wants it.
    fn place(&mut self, event: Event)
        requires
            old(self).wf(),
            !has_id(old(self)@.events, event@.id),
        ensures
            final(self)@.events == old(self)@.events.insert(
                insertion_point(old(self)@.events, event@),
                event@,
            ),
            ordered(final(self)@.events),
            final(self).next_id == old(self).next_id,
    {
        let ghost before = self@.events;
        let mut at: usize = self.events.len();
        proof {
            assert(before.take(at as int) =~= before);
        }
        while at > 0 && !comes_before(&self.events[at - 1], &event)
            invariant
                at <= self.events.len(),
                before == self@.events,
                before == event_models(self.events@),
                insertion_point(before, event@) == insertion_point(before.take(at as int), event@),
            decreases at,
        {
            proof {
                assert(before.take(at as int).drop_last() =~= before.take(at - 1));
            }
            at -= 1;
        }
        proof {
            lemma_insert_keeps_order(before, event@);
            assert(insertion_point(before, event@) == at);
        }
        let ghost held = self.events@;
        self.events.insert(at, event);
        proof {
            assert(event_models(self.events@) =~= event_models(held).insert(at as int, event@));
        }
    }

    /// Appends one event at `timestamp`, under the next id, and hands back
    /// that id. Fails, leaving the log as it was, when the task has no name
    /// or the ids have run out.
    pub fn append(&mut self, task_name: String, action: Action, timestamp: Timestamp) -> (written:
        Result<i64, LedgerError>)
        requires
            old(self).wf(),
        ensures
            final(self).wf(),
            final(self)@ == appended(old(self)@, task_name@, action, timestamp.nanos as int),
            written == if can_append(old(self)@, task_name@) {
                Ok::<i64, LedgerError>(old(self)@.next_id as i64)
            } else {
                Err::<i64, LedgerError>(LedgerError::Persistence)
            },
    {
        if task_name.as_str().is_empty() || self.next_id == i64::MAX {
            return Err(LedgerError::Persistence);
        }
        let id: i64 = self.next_id;
        let event = Event { id, timestamp, task_name, action };
        let ghost before = self@;
        proof {
            assert(!has_id(before.events, id as int));
        }
        self.place(event);
        self.next_id = id + 1;
        proof {
            let at = insertion_point(before.events, event@);
            lemma_insert_keeps_order(before.events, event@);
            lemma_insert_keeps_ids(before.events, at, event@);
            assert forall|i: int| 0 <= i < self@.events.len() implies 0 <= (
            #[trigger] self@.events[i]).id < self@.next_id && self@.events[i].task.len()
                > 0 by {
                if i < at {
                    assert(self@.events[i] == before.events[i]);
                } else if i > at {
                    assert(self@.events[i] == before.events[i - 1]);
                }
            }
        }
        Ok(id)
    }

    /// Takes an event that was written before, under the id it carries. The
    /// event is refused, and the log stays as it was, when it names no task
    /// or when its id is negative, is the last id there is, or is taken.
    pub fn restore(&mut self, event: Event) -> (taken: bool)
        requires
            old(self).wf(),
        ensures
            final(self).wf(),
            taken == can_restore(old(self)@, event@),
            final(self)@ == restored(old(self)@, event@),
    {
        if event.task_name.as_str().is_empty() || event.id < 0 || event.id == i64::MAX
            || self.contains_id(event.id) {
            return false;
        }
        let ghost before = self@;
        let ghost model = event@;
        let id: i64 = event.id;
        self.place(event);
        if id >= self.next_id {
            self.next_id = id + 1;
        }
        proof {
            let at = insertion_point(before.events, model);
            lemma_insert_keeps_order(before.events, model);
            lemma_insert_keeps_ids(before.events, at, model);
            assert forall|i: int| 0 <= i < self@.events.len() implies 0 <= (
            #[trigger] self@.events[i]).id < self@.next_id && self@.events[i].task.len()
                > 0 by {
                if i < at {
                    assert(self@.events[i] == before.events[i]);
                } else if i > at {
                    assert(self@.events[i] == before.events[i - 1]);
                }
            }
        }
        true
    }

    /// Every event, in ascending order of timestamps; events with the same
    /// timestamp in ascending order of ids.
    pub fn scan_all(&self) -> (events: Vec<Event>)
        requires
            self.wf(),
        ensures
            event_models(events@) == self@.events,
            ordered(event_models(events@)),
    {
        let mut out: Vec<Event> = Vec::new();
        let mut i: usize = 0;
        proof {
            assert(event_models(out@) =~= self@.events.take(0));
        }
        while i < self.events.len()
            invariant
                i <= self.events.len(),
                event_models(out@) == self@.events.take(i as int),
            decreases self.events.len() - i,
        {
            let ghost before = out@;
            let copy = self.events[i].duplicate();
            out.push(copy);
            proof {
                assert(event_models(out@) =~= event_models(before).push(copy@));
                assert(self@.events.take(i + 1) =~= self@.events.take(i as int).push(
                    self@.events[i as int],
                ));
            }
            i += 1;
        }
        proof {
            assert(self@.events.take(self.events.len() as int) =~= self@.events);
        }
        out
    }

    /// The events of one task, in scan order.
    pub fn scan_by_task(&self, task_name: &String) -> (events: Vec<Event>)
        requires
            self.wf(),
        ensures
            event_models(events@) == only_task(self@.events, task_name@),
    {
        let mut out: Vec<Event> = Vec::new();
        let mut i: usize = 0;
        proof {
            assert(event_models(out@) =~= Seq::empty());
        }
        while i < self.events.len()
            invariant
                i <= self.events.len(),
                event_models(out@) == only_task(self@.events.take(i as int), task_name@),
            decreases self.events.len() - i,
        {
            proof {
                assert(self@.events.take(i + 1).drop_last() =~= self@.events.take(i as int));
            }
            if self.events[i].task_name == *task_name {
                let ghost before = out@;
                let copy = self.events[i].duplicate();
                out.push(copy);
                proof {
                    assert(event_models(out@) =~= event_models(before).push(copy@));
                }
            }
            i += 1;
        }
        proof {
            assert(self@.events.take(self.events.len() as int) =~= self@.events);
        }
        out
    }

    /// Deletes the event with the id `id` and says whether there was one.
    /// Every other event stays, in its place.
    pub fn delete(&mut self, id: i64) -> (existed: bool)
        requires
            old(self).wf(),
        ensures
            final(self).wf(),
            existed == has_id(old(self)@.events, id as int),
            final(self)@ == deleted(old(self)@, id as int),
    {
        let ghost before = self@;
        let mut i: usize = 0;
        while i < self.events.len()
            invariant
                i <= self.events.len(),
                self@ == before,
                before == old(self)@,
                log_valid(before),
                forall|k: int| 0 <= k < i ==> before.events[k].id != id,
            decreases self.events.len() - i,
        {
            if self.events[i].id == id {
                let ghost held = self.events@;
                let gone = self.events.remove(i);
                proof {
                    assert(before.events[i as int].id == id);
                    assert(has_id(before.events, id as int));
                    let at = choose|k: int|
                        0 <= k < before.events.len() && before.events[k].id == id;
                    assert(at == i) by {
                        if at < i {
                            assert(before.events[at].id != before.events[i as int].id);
                        } else if at > i {
                            assert(before.events[i as int].id != before.events[at].id);
                        }
                    }
                    assert(event_models(self.events@) =~= event_models(held).remove(i as int));
                    lemma_remove_keeps_valid(before, i as int);
                }
                return true;
            }
            i += 1;
        }
        false
    }
}

/// Whether `a` comes before `b` in a scan: by timestamp, then by id.
pub fn comes_before(a: &Event, b: &Event) -> (before: bool)
    ensures
        before == precedes(a@, b@),
{
    a.timestamp.nanos < b.timestamp.nanos || (a.timestamp.nanos == b.timestamp.nanos && a.id
        < b.id)
}

/// Putting in an event with a new id keeps the ids distinct.
pub proof fn lemma_insert_keeps_ids(events: Seq<EventModel>, at: int, event: EventModel)
    requires
        distinct_ids(events),
        !has_id(events, event.id),
        0 <= at <= events.len(),
    ensures
        distinct_ids(events.insert(at, event)),
{
    let placed = events.insert(at, event);
    assert forall|i: int, j: int| 0 <= i < j < placed.len() implies placed[i].id != placed[j].id by {
        let a = if i < at { i } else { i - 1 };
        let b = if j < at { j } else { j - 1 };
        if i != at && j != at {
            assert(placed[i] == events[a]);
            assert(placed[j] == events[b]);
        } else if i == at {
            assert(placed[j] == events[b]);
        } else {
            assert(placed[i] == events[a]);
        }
    }
}

/// Taking an event out keeps a log valid.
pub proof fn lemma_remove_keeps_valid(log: LogModel, at: int)
    requires
        log_valid(log),
        0 <= at < log.events.len(),
    ensures
        log_valid(LogModel { events: log.events.remove(at), next_id: log.next_id }),
{
    let rest = log.events.remove(at);
    assert forall|i: int, j: int| 0 <= i < j < rest.len() implies precedes(rest[i], rest[j])
        && rest[i].id != rest[j].id by {
        let a = if i < at { i } else { i + 1 };
        let b = if j < at { j } else { j + 1 };
        assert(rest[i] == log.events[a]);
        assert(rest[j] == log.events[b]);
    }
    assert forall|i: int| 0 <= i < rest.len() implies 0 <= (#[trigger] rest[i]).id
        < log.next_id && rest[i].task.len() > 0 by {
        let a = if i < at { i } else { i + 1 };
        assert(rest[i] == log.events[a]);
    }
}

} // verus!
