//! The ledger: the commands that callers use.
//!
//! A ledger holds the event log and the tracker. A command that writes
//! appends its event first and changes the tracker only when the event was
//! written, so the two never part. Queries derive their answers from the log
//! each time they are asked.

use vstd::prelude::*;
use crate::error::LedgerError;
use crate::event::{Action, Event, Timestamp};
use crate::history::{TaskHistory, group_by_task, grouped, history_models};
use crate::reconcile::{
    Reconciliation, Session, all_sessions, latest_open, pairing, reconcile, session_models,
};
use crate::store::{
    EventLog, LogModel, appended, can_append, can_restore, deleted, has_id, log_valid, only_task,
    restored,
};
use crate::totals::{TaskTotal, task_totals, total_models, totals};
use crate::tracker::{Active, Tracker, TrackerModel, shown_at};

verus! {

/// The event log and the tracker, behind the commands.
#[derive(Debug, PartialEq, Eq)]
pub struct Ledger {
    log: EventLog,
    tracker: Tracker,
}

/// The mathematical content of a [`Ledger`].
pub ghost struct LedgerModel {
    pub log: LogModel,
    pub tracker: TrackerModel,
}

/// The tracker that a log resumes with: running the task that was started
/// last and is still open, or idle when no task is open.
pub open spec fn resumed_tracker(events: Seq<crate::event::EventModel>) -> TrackerModel {
    match latest_open(pairing(events).open) {
        Some(open) => TrackerModel::Running { task: open.task, since: open.since },
        None => TrackerModel::Idle,
    }
}

/// The ledger after `start_task`.
pub open spec fn after_start(before: LedgerModel, task: Seq<char>, now: int) -> LedgerModel {
    if task.len() == 0 || before.log.next_id >= i64::MAX {
        before
    } else {
        LedgerModel {
            log: appended(before.log, task, Action::Start, now),
            tracker: TrackerModel::Running { task, since: now },
        }
    }
}

/// What `start_task`, or `stop_named`, answers.
pub open spec fn write_answer(before: LedgerModel, task: Seq<char>) -> Result<i64, LedgerError> {
    if task.len() == 0 {
        Err(LedgerError::InvalidArgument)
    } else if before.log.next_id >= i64::MAX {
        Err(LedgerError::Persistence)
    } else {
        Ok(before.log.next_id as i64)
    }
}

/// The ledger after `stop_task`.
pub open spec fn after_stop(before: LedgerModel, now: int) -> LedgerModel {
    match before.tracker {
        TrackerModel::Idle => before,
        TrackerModel::Running { task, since } => if can_append(before.log, task) {
            LedgerModel {
                log: appended(before.log, task, Action::End, now),
                tracker: TrackerModel::Idle,
            }
        } else {
            before
        },
    }
}

/// What `stop_task` answers.
pub open spec fn stop_answer(before: LedgerModel) -> Result<Option<i64>, LedgerError> {
    match before.tracker {
        TrackerModel::Idle => Ok(None),
        TrackerModel::Running { task, since } => if can_append(before.log, task) {
            Ok(Some(before.log.next_id as i64))
        } else {
            Err(LedgerError::Persistence)
        },
    }
}

/// The ledger after `stop_named`.
pub open spec fn after_stop_named(before: LedgerModel, task: Seq<char>, now: int) -> LedgerModel {
    if task.len() == 0 || before.log.next_id >= i64::MAX {
        before
    } else {
        LedgerModel {
            log: appended(before.log, task, Action::End, now),
            tracker: match before.tracker {
                TrackerModel::Running { task: running, since } if running == task =>
                    TrackerModel::Idle,
                _ => before.tracker,
            },
        }
    }
}

/// The sessions that a query for `task` finds in a log: those of the whole
/// log, or those of the events of one task.
pub open spec fn sessions_found(
    events: Seq<crate::event::EventModel>,
    task: Option<Seq<char>>,
) -> Seq<crate::reconcile::SessionModel> {
    match task {
        Some(name) => all_sessions(pairing(only_task(events, name))),
        None => all_sessions(pairing(events)),
    }
}

impl View for Ledger {
    type V = LedgerModel;

    closed spec fn view(&self) -> LedgerModel {
        LedgerModel { log: self.log@, tracker: self.tracker@ }
    }
}

impl Ledger {
    /// What holds of every ledger that this module hands out.
    pub open spec fn wf(&self) -> bool {
        log_valid(self@.log)
    }

    /// A ledger with an empty log and nothing running.
    pub fn new() -> (ledger: Ledger)
        ensures
            ledger.wf(),
            ledger@ == (LedgerModel {
                log: LogModel { events: Seq::empty(), next_id: 1 },
                tracker: TrackerModel::Idle,
            }),
    {
        Ledger { log: EventLog::new(), tracker: Tracker::new() }
    }

    /// The event log.
    pub fn log(&self) -> (log: &EventLog)
        ensures
            log@ == self@.log,
    {
        &self.log
    }

    /// The tracker.
    pub fn tracker(&self) -> (tracker: &Tracker)
        ensures
            tracker@ == self@.tracker,
    {
        &self.tracker
    }

    /// Takes an event that was written before, under the id it carries, and
    /// says whether the log took it. The tracker stays as it is.
    pub fn restore(&mut self, event: Event) -> (taken: bool)
        requires
            old(self).wf(),
        ensures
            final(self).wf(),
            taken == can_restore(old(self)@.log, event@),
            final(self)@ == (LedgerModel {
                log: restored(old(self)@.log, event@),
                tracker: old(self)@.tracker,
            }),
    {
        self.log.restore(event)
    }

    /// Sets the tracker from the log: it runs the task that was started last
    /// and is still open, or nothing when no task is open.
    pub fn resume(&mut self)
        requires
            old(self).wf(),
        ensures
            final(self).wf(),
            final(self)@ == (LedgerModel {
                log: old(self)@.log,
                tracker: resumed_tracker(old(self)@.log.events),
            }),
    {
        let found = reconcile(self.log.events());
        match found.latest_open() {
            Some(open) => {
                self.tracker = Tracker::Running { task_name: open.task_name, since: open.since };
            },
            None => {
                self.tracker = Tracker::Idle;
            },
        }
    }

    /// Starts `task_name` at `now`: appends a start event and makes the task
    /// the running one. A task that was running is not ended: no end event is
    /// written for it. An empty name is refused, and so is a start that the
    /// log cannot take; the ledger then stays as it was.
    pub fn start_task(&mut self, task_name: String, now: Timestamp) -> (written: Result<
        i64,
        LedgerError,
    >)
        requires
            old(self).wf(),
        ensures
            final(self).wf(),
            final(self)@ == after_start(old(self)@, task_name@, now.nanos as int),
            written == write_answer(old(self)@, task_name@),
    {
        if task_name.as_str().is_empty() {
            return Err(LedgerError::InvalidArgument);
        }
        let name = task_name.clone();
        match self.log.append(name, Action::Start, now) {
            Ok(id) => {
                self.tracker.start(task_name, now);
                Ok(id)
            },
            Err(error) => Err(error),
        }
    }

    /// Stops the running task at `now`: appends an end event for it, makes
    /// the tracker idle, and hands back the id of the event. With nothing
    /// running, nothing is written and the answer is `Ok(None)`. When the log
    /// cannot take the end, the task goes on running.
    pub fn stop_task(&mut self, now: Timestamp) -> (written: Result<Option<i64>, LedgerError>)
        requires
            old(self).wf(),
        ensures
            final(self).wf(),
            final(self)@ == after_stop(old(self)@, now.nanos as int),
            written == stop_answer(old(self)@),
    {
        match self.tracker.running_task() {
            None => Ok(None),
            Some(name) => {
                match self.log.append(name, Action::End, now) {
                    Ok(id) => {
                        self.tracker = Tracker::Idle;
                        Ok(Some(id))
                    },
                    Err(error) => Err(error),
                }
            },
        }
    }

    /// Ends `task_name` at `now`, whether or not the tracker runs it: appends
    /// an end event for it, and makes the tracker idle if it ran that task.
    /// An empty name is refused, and so is an end that the log cannot take;
    /// the ledger then stays as it was.
    pub fn stop_named(&mut self, task_name: String, now: Timestamp) -> (written: Result<
        i64,
        LedgerError,
    >)
        requires
            old(self).wf(),
        ensures
            final(self).wf(),
            final(self)@ == after_stop_named(old(self)@, task_name@, now.nanos as int),
            written == write_answer(old(self)@, task_name@),
    {
        if task_name.as_str().is_empty() {
            return Err(LedgerError::InvalidArgument);
        }
        let runs_it = match &self.tracker {
            Tracker::Running { task_name: running, since } => *running == task_name,
            Tracker::Idle => false,
        };
        match self.log.append(task_name, Action::End, now) {
            Ok(id) => {
                if runs_it {
                    self.tracker = Tracker::Idle;
                }
                Ok(id)
            },
            Err(error) => Err(error),
        }
    }

    /// The total of each task that has a closed session, from the log as it
    /// stands. Open sessions count for nothing.
    pub fn get_totals(&self) -> (rows: Vec<TaskTotal>)
        requires
            self.wf(),
        ensures
            total_models(rows@) == totals(pairing(self@.log.events).closed),
    {
        task_totals(self.log.events())
    }

    /// The sessions of the log as it stands, or those of one task: the closed
    /// ones, then the open ones.
    pub fn get_sessions(&self, task_name: Option<&String>) -> (sessions: Vec<Session>)
        requires
            self.wf(),
        ensures
            session_models(sessions@) == sessions_found(
                self@.log.events,
                match task_name {
                    Some(name) => Some(name@),
                    None => None,
                },
            ),
    {
        match task_name {
            Some(name) => {
                let events = self.log.scan_by_task(name);
                reconcile(&events).into_sessions()
            },
            None => reconcile(self.log.events()).into_sessions(),
        }
    }

    /// The sessions of the log as it stands, grouped by task: the tasks in
    /// the order in which their first sessions are listed.
    pub fn get_history(&self) -> (groups: Vec<TaskHistory>)
        requires
            self.wf(),
        ensures
            history_models(groups@) == grouped(all_sessions(pairing(self@.log.events))),
    {
        let sessions = reconcile(self.log.events()).into_sessions();
        group_by_task(&sessions)
    }

    /// The sessions and the anomalies of the log as it stands.
    pub fn reconcile(&self) -> (found: Reconciliation)
        requires
            self.wf(),
        ensures
            found@ == pairing(self@.log.events),
    {
        reconcile(self.log.events())
    }

    /// Deletes the event with the id `id` and says whether there was one. The
    /// tracker stays as it is.
    pub fn delete_event(&mut self, id: i64) -> (existed: bool)
        requires
            old(self).wf(),
        ensures
            final(self).wf(),
            existed == has_id(old(self)@.log.events, id as int),
            final(self)@ == (LedgerModel {
                log: deleted(old(self)@.log, id as int),
                tracker: old(self)@.tracker,
            }),
    {
        self.log.delete(id)
    }

    /// What is running at `now`, and for how long. Reads the tracker only.
    pub fn peek_active(&self, now: Timestamp) -> (shown: Active)
        ensures
            shown@ == shown_at(self@.tracker, now.nanos as int),
    {
        self.tracker.current(now)
    }
}

} // verus!
