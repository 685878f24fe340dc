//! The tracker: which task is running now, and since when.
//!
//! The tracker is a cache of the tail of the log. It holds no history and
//! writes nothing: the caller appends the event that goes with each change.

use vstd::prelude::*;
use crate::event::Timestamp;
use crate::totals::{to_whole_seconds, whole_seconds};

verus! {

/// The state of the tracker.
#[derive(Debug, PartialEq, Eq)]
pub enum Tracker {
    Idle,
    Running { task_name: String, since: Timestamp },
}

/// The mathematical content of a [`Tracker`].
pub ghost enum TrackerModel {
    Idle,
    Running { task: Seq<char>, since: int },
}

impl View for Tracker {
    type V = TrackerModel;

    open spec fn view(&self) -> TrackerModel {
        match *self {
            Tracker::Idle => TrackerModel::Idle,
            Tracker::Running { task_name, since } => TrackerModel::Running {
                task: task_name@,
                since: since.nanos as int,
            },
        }
    }
}

/// What the tracker shows at some moment: the running task and the time it
/// has been running for, in nanoseconds.
#[derive(Debug, PartialEq, Eq)]
pub enum Active {
    Idle,
    Running { task_name: String, elapsed_nanos: i128 },
}

/// The mathematical content of an [`Active`].
pub ghost enum ActiveModel {
    Idle,
    Running { task: Seq<char>, elapsed: int },
}

impl View for Active {
    type V = ActiveModel;

    open spec fn view(&self) -> ActiveModel {
        match *self {
            Active::Idle => ActiveModel::Idle,
            Active::Running { task_name, elapsed_nanos } => ActiveModel::Running {
                task: task_name@,
                elapsed: elapsed_nanos as int,
            },
        }
    }
}

/// What a tracker in state `state` shows at `now`.
pub open spec fn shown_at(state: TrackerModel, now: int) -> ActiveModel {
    match state {
        TrackerModel::Idle => ActiveModel::Idle,
        TrackerModel::Running { task, since } => ActiveModel::Running {
            task,
            elapsed: now - since,
        },
    }
}

impl Active {
    /// The time that the running task has been running for, in whole
    /// seconds, truncated toward zero; `None` when nothing is running.
    pub fn elapsed_seconds(&self) -> (seconds: Option<i128>)
        ensures
            seconds == match self@ {
                ActiveModel::Idle => None::<i128>,
                ActiveModel::Running { task, elapsed } => Some(whole_seconds(elapsed) as i128),
            },
    {
        match self {
            Active::Idle => None,
            Active::Running { task_name, elapsed_nanos } => Some(
                to_whole_seconds(*elapsed_nanos),
            ),
        }
    }
}

impl Tracker {
    /// A tracker with nothing running.
    pub fn new() -> (tracker: Tracker)
        ensures
            tracker@ == TrackerModel::Idle,
    {
        Tracker::Idle
    }

    /// Whether a task is running.
    pub fn is_running(&self) -> (running: bool)
        ensures
            running == (self@ is Running),
    {
        match self {
            Tracker::Idle => false,
            Tracker::Running { .. } => true,
        }
    }

    /// Makes `task_name` the running task, from `now` on. A task that was
    /// running is abandoned here: the tracker forgets it, and nothing ends it.
    pub fn start(&mut self, task_name: String, now: Timestamp)
        ensures
            final(self)@ == (TrackerModel::Running { task: task_name@, since: now.nanos as int }),
    {
        *self = Tracker::Running { task_name, since: now };
    }

    /// Stops the running task and hands back its name, for the end event that
    /// the caller appends. With nothing running, nothing changes.
    pub fn stop(&mut self) -> (stopped: Option<String>)
        ensures
            final(self)@ == TrackerModel::Idle,
            match old(self)@ {
                TrackerModel::Idle => stopped is None,
                TrackerModel::Running { task, since } => stopped is Some && stopped->0@ == task,
            },
    {
        let mut state = Tracker::Idle;
        core::mem::swap(self, &mut state);
        match state {
            Tracker::Idle => None,
            Tracker::Running { task_name, since } => Some(task_name),
        }
    }

    /// The name of the running task, if there is one.
    pub fn running_task(&self) -> (name: Option<String>)
        ensures
            match self@ {
                TrackerModel::Idle => name is None,
                TrackerModel::Running { task, since } => name is Some && name->0@ == task,
            },
    {
        match self {
            Tracker::Idle => None,
            Tracker::Running { task_name, since } => Some(task_name.clone()),
        }
    }

    /// What the tracker shows at `now`: the running task and the time since
    /// its start. Reads only; a clock that went back gives a negative time.
    pub fn current(&self, now: Timestamp) -> (shown: Active)
        ensures
            shown@ == shown_at(self@, now.nanos as int),
    {
        match self {
            Tracker::Idle => Active::Idle,
            Tracker::Running { task_name, since } => {
                let from: i128 = since.nanos as i128;
                let to: i128 = now.nanos as i128;
                Active::Running { task_name: task_name.clone(), elapsed_nanos: to - from }
            },
        }
    }
}

} // verus!
