//! Totals: the time that each task has spent in closed sessions.

use vstd::hash_map::StringHashMap;
use vstd::prelude::*;
use crate::event::{Event, EventModel, event_models};
use crate::reconcile::{
    OpenModel, Session, SessionModel, open_since, pairing, reconcile, session_models,
    without_task,
};

verus! {

/// The nanoseconds in a second.
pub const NANOS_PER_SECOND: i128 = 1_000_000_000;

/// The widest distance between two timestamps, in nanoseconds.
pub const WIDEST_SPAN: i128 = 18_446_744_073_709_551_615;

/// The time that one task has spent in closed sessions.
#[derive(Debug, PartialEq, Eq)]
pub struct TaskTotal {
    pub task_name: String,
    /// The sum of the durations, untruncated.
    pub nanos: i128,
}

/// The mathematical content of a [`TaskTotal`].
pub ghost struct TotalModel {
    pub task: Seq<char>,
    pub nanos: int,
}

impl View for TaskTotal {
    type V = TotalModel;

    open spec fn view(&self) -> TotalModel {
        TotalModel { task: self.task_name@, nanos: self.nanos as int }
    }
}

/// The models of a sequence of totals, in the same order.
pub open spec fn total_models(totals: Seq<TaskTotal>) -> Seq<TotalModel> {
    Seq::new(totals.len(), |i: int| totals[i]@)
}

/// A duration in whole seconds: truncated toward zero, not rounded.
pub open spec fn whole_seconds(nanos: int) -> int {
    if nanos >= 0 {
        nanos / 1_000_000_000
    } else {
        -((-nanos) / 1_000_000_000)
    }
}

/// How long a session lasted; an open session has lasted nothing yet.
pub open spec fn duration(session: SessionModel) -> int {
    match session.end {
        Some(end) => end - session.start,
        None => 0,
    }
}

/// The sum of the durations of the sessions of `task`.
pub open spec fn total_of(sessions: Seq<SessionModel>, task: Seq<char>) -> int
    decreases sessions.len(),
{
    if sessions.len() == 0 {
        0
    } else if sessions.last().task == task {
        total_of(sessions.drop_last(), task) + duration(sessions.last())
    } else {
        total_of(sessions.drop_last(), task)
    }
}

/// The tasks that have a closed session, each once, in the order in which
/// their first sessions were closed.
pub open spec fn tasks_of(sessions: Seq<SessionModel>) -> Seq<Seq<char>>
    decreases sessions.len(),
{
    if sessions.len() == 0 {
        Seq::empty()
    } else {
        let earlier = tasks_of(sessions.drop_last());
        if sessions.last().end is None || earlier.contains(sessions.last().task) {
            earlier
        } else {
            earlier.push(sessions.last().task)
        }
    }
}

/// The totals of a list of sessions: one row for each task that has a closed
/// session, holding the sum of the durations of its sessions.
pub open spec fn totals(sessions: Seq<SessionModel>) -> Seq<TotalModel> {
    let tasks = tasks_of(sessions);
    Seq::new(tasks.len(), |i: int| TotalModel { task: tasks[i], nanos: total_of(sessions, tasks[i]) })
}

/// No task has two rows.
pub proof fn lemma_tasks_distinct(sessions: Seq<SessionModel>)
    ensures
        forall|i: int, j: int|
            0 <= i < j < tasks_of(sessions).len() ==> tasks_of(sessions)[i] != tasks_of(
                sessions,
            )[j],
    decreases sessions.len(),
{
    if sessions.len() > 0 {
        let earlier = tasks_of(sessions.drop_last());
        lemma_tasks_distinct(sessions.drop_last());
        assert forall|i: int, j: int| 0 <= i < j < tasks_of(sessions).len() implies tasks_of(
            sessions,
        )[i] != tasks_of(sessions)[j] by {
            if j == earlier.len() {
                assert(!earlier.contains(sessions.last().task));
                assert(earlier[i] == tasks_of(sessions)[i]);
            }
        }
    }
}

impl Session {
    /// How long the session lasted, in nanoseconds; `None` while it is open.
    /// An end before the start gives a negative duration, as it stands.
    pub fn duration_nanos(&self) -> (lasted: Option<i128>)
        ensures
            self.end is None ==> lasted is None,
            self.end is Some ==> lasted == Some(duration(self@) as i128),
            self.end is Some ==> -WIDEST_SPAN <= duration(self@) <= WIDEST_SPAN,
    {
        match self.end {
            Some(end) => {
                let from: i128 = self.start.nanos as i128;
                let to: i128 = end.nanos as i128;
                Some(to - from)
            },
            None => None,
        }
    }

    /// How long the session lasted, in whole seconds; `None` while it is open.
    pub fn duration_seconds(&self) -> (lasted: Option<i128>)
        ensures
            self.end is None ==> lasted is None,
            self.end is Some ==> lasted == Some(whole_seconds(duration(self@)) as i128),
    {
        match self.duration_nanos() {
            Some(nanos) => Some(to_whole_seconds(nanos)),
            None => None,
        }
    }
}

/// A duration in whole seconds: truncated toward zero, not rounded.
pub fn to_whole_seconds(nanos: i128) -> (seconds: i128)
    ensures
        seconds == whole_seconds(nanos as int),
{
    if nanos >= 0 {
        nanos / NANOS_PER_SECOND
    } else if nanos == i128::MIN {
        -(i128::MAX / NANOS_PER_SECOND)
    } else {
        -((-nanos) / NANOS_PER_SECOND)
    }
}

impl TaskTotal {
    /// The total in whole seconds: truncated toward zero, not rounded.
    pub fn seconds(&self) -> (seconds: i128)
        ensures
            seconds == whole_seconds(self.nanos as int),
    {
        to_whole_seconds(self.nanos)
    }
}

/// Whether `index` holds, for each task that has a row, the place of that
/// row, and nothing for a task without one.
spec fn rows_indexed(index: Map<Seq<char>, usize>, rows: Seq<TaskTotal>) -> bool {
    &&& forall|task: Seq<char>| #[trigger]
        index.contains_key(task) ==> index[task] < rows.len() && rows[index[task] as int].task_name@
            == task
    &&& forall|k: int|
        0 <= k < rows.len() ==> index.contains_key((#[trigger] rows[k]).task_name@)
}

/// Adds up the durations of the closed sessions of each task. Open sessions
/// count for nothing, and a task without a closed session gets no row. The
/// row of a task is found through a hash map from names to places.
pub fn sum_sessions(sessions: &Vec<Session>) -> (rows: Vec<TaskTotal>)
    requires
        sessions.len() <= usize::MAX / 2,
    ensures
        total_models(rows@) == totals(session_models(sessions@)),
{
    let mut rows: Vec<TaskTotal> = Vec::new();
    let mut index: StringHashMap<usize> = StringHashMap::new();
    let ghost all = session_models(sessions@);
    proof {
        assert(total_models(rows@) =~= totals(all.take(0)));
    }
    let mut i: usize = 0;
    while i < sessions.len()
        invariant
            i <= sessions.len(),
            sessions.len() <= usize::MAX / 2,
            all == session_models(sessions@),
            total_models(rows@) == totals(all.take(i as int)),
            rows_indexed(index@, rows@),
            forall|k: int|
                0 <= k < rows.len() ==> -(i * WIDEST_SPAN) <= #[trigger] rows[k].nanos <= i
                    * WIDEST_SPAN,
        decreases sessions.len() - i,
    {
        let ghost seen = all.take(i as int);
        let ghost next = all.take(i + 1);
        let ghost rows_before = rows@;
        proof {
            assert(next.drop_last() =~= seen);
            assert(next.last() == sessions[i as int]@);
            lemma_tasks_distinct(seen);
            assert(total_models(rows@).len() == rows.len());
            assert(totals(seen).len() == tasks_of(seen).len());
            assert forall|k: int| 0 <= k < rows.len() implies rows[k].task_name@ == tasks_of(
                seen,
            )[k] by {
                assert(total_models(rows@)[k] == totals(seen)[k]);
            }
            assert(forall|k: int|
                0 <= k < rows.len() ==> (#[trigger] total_models(rows@)[k]).task == tasks_of(
                    seen,
                )[k]);
        }
        let session = &sessions[i];
        match session.duration_nanos() {
            Some(lasted) => {
                let found: Option<usize> = match index.get(session.task_name.as_str()) {
                    Some(at) => Some(*at),
                    None => None,
                };
                proof {
                    if found is None {
                        assert forall|k: int| 0 <= k < rows.len() implies rows[k].task_name@
                            != session.task_name@ by {
                            assert(index@.contains_key(rows[k].task_name@));
                        }
                    }
                }
                match found {
                    Some(at) => {
                        let sum: i128 = rows[at].nanos + lasted;
                        let row = TaskTotal { task_name: session.task_name.clone(), nanos: sum };
                        rows.set(at, row);
                        proof {
                            assert forall|k: int| 0 <= k < rows.len() implies index@.contains_key(
                                (#[trigger] rows[k]).task_name@,
                            ) by {
                                assert(index@.contains_key(rows_before[k].task_name@));
                            }
                            let tasks = tasks_of(seen);
                            assert(tasks[at as int] == session.task_name@);
                            assert(tasks.contains(session.task_name@));
                            assert(tasks_of(next) == tasks);
                            assert(total_models(rows@).len() == totals(next).len());
                            assert forall|k: int| 0 <= k < rows.len() implies total_models(
                                rows@,
                            )[k] == totals(next)[k] by {
                                assert(total_models(rows_before)[k] == totals(seen)[k]);
                                if k != at {
                                    assert(tasks[k] != tasks[at as int]);
                                }
                            }
                            assert(total_models(rows@) =~= totals(next));
                        }
                    },
                    None => {
                        let row = TaskTotal { task_name: session.task_name.clone(), nanos: lasted };
                        rows.push(row);
                        let ghost index_before = index@;
                        index.insert(session.task_name.clone(), rows.len() - 1);
                        proof {
                            assert forall|task: Seq<char>| #[trigger]
                                index@.contains_key(task) implies index@[task] < rows.len()
                                && rows[index@[task] as int].task_name@ == task by {
                                if task != session.task_name@ {
                                    assert(index_before.contains_key(task));
                                }
                            }
                            assert forall|k: int| 0 <= k < rows.len() implies index@.contains_key(
                                (#[trigger] rows[k]).task_name@,
                            ) by {
                                if k < rows_before.len() {
                                    assert(index_before.contains_key(rows_before[k].task_name@));
                                }
                            }
                            lemma_absent_total(seen, session.task_name@);
                            assert(!tasks_of(seen).contains(session.task_name@)) by {
                                if tasks_of(seen).contains(session.task_name@) {
                                    let k = choose|k: int|
                                        0 <= k < tasks_of(seen).len() && tasks_of(seen)[k]
                                            == session.task_name@;
                                    assert(total_models(rows_before)[k].task == tasks_of(seen)[k]);
                                }
                            }
                            let tasks = tasks_of(seen);
                            assert(tasks_of(next) == tasks.push(session.task_name@));
                            assert(total_models(rows@).len() == totals(next).len());
                            assert forall|k: int| 0 <= k < rows.len() implies total_models(
                                rows@,
                            )[k] == totals(next)[k] by {
                                if k < rows_before.len() {
                                    assert(total_models(rows_before)[k] == totals(seen)[k]);
                                    assert(tasks.contains(tasks[k]));
                                }
                            }
                            assert(total_models(rows@) =~= totals(next));
                        }
                    },
                }
            },
            None => {
                proof {
                    assert(tasks_of(next) == tasks_of(seen));
                    assert forall|k: int| 0 <= k < rows.len() implies total_models(rows@)[k]
                        == totals(next)[k] by {
                        assert(total_models(rows_before)[k] == totals(seen)[k]);
                    }
                    assert(total_models(rows@) =~= totals(next));
                }
            },
        }
        i += 1;
    }
    proof {
        assert(all.take(sessions.len() as int) =~= all);
    }
    rows
}

/// Dropping the open start of a task makes the list shorter.
pub proof fn lemma_without_shorter(open: Seq<OpenModel>, task: Seq<char>)
    ensures
        without_task(open, task).len() <= open.len(),
        open_since(open, task) is Some ==> without_task(open, task).len() < open.len(),
    decreases open.len(),
{
    if open.len() > 0 {
        lemma_without_shorter(open.drop_last(), task);
    }
}

/// Every closed session has used up two events, and every open start one.
pub proof fn lemma_sessions_bounded(events: Seq<EventModel>)
    ensures
        2 * pairing(events).closed.len() + pairing(events).open.len() <= events.len(),
    decreases events.len(),
{
    if events.len() > 0 {
        lemma_sessions_bounded(events.drop_last());
        lemma_without_shorter(pairing(events.drop_last()).open, events.last().task);
    }
}

/// The totals of a log, read in the order given: for each task with a closed
/// session, the sum of the durations of its closed sessions.
pub fn task_totals(events: &Vec<Event>) -> (rows: Vec<TaskTotal>)
    ensures
        total_models(rows@) == totals(pairing(event_models(events@)).closed),
{
    let found = reconcile(events);
    proof {
        lemma_sessions_bounded(event_models(events@));
        assert(session_models(found.closed@).len() == found.closed.len());
        assert(event_models(events@).len() == events.len());
    }
    sum_sessions(&found.closed)
}

/// A task without a row has spent nothing.
pub proof fn lemma_absent_total(sessions: Seq<SessionModel>, task: Seq<char>)
    requires
        !tasks_of(sessions).contains(task),
    ensures
        total_of(sessions, task) == 0,
    decreases sessions.len(),
{
    if sessions.len() > 0 {
        let earlier = tasks_of(sessions.drop_last());
        if earlier.contains(task) {
            let k = choose|k: int| 0 <= k < earlier.len() && earlier[k] == task;
            assert(tasks_of(sessions)[k] == task);
        }
        lemma_absent_total(sessions.drop_last(), task);
        if sessions.last().task == task && sessions.last().end is Some {
            assert(tasks_of(sessions).last() == task);
        }
    }
}

} // verus!
