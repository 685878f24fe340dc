//! Laws: what holds of reconciliation, of the store and of the commands, for
//! every log.

use vstd::prelude::*;
use crate::error::LedgerError;
use crate::event::{Action, EventModel};
use crate::ledger::{LedgerModel, after_stop, sessions_found, stop_answer};
use crate::history::sessions_of;
use crate::reconcile::{
    AnomalyModel, OpenModel, SessionModel, all_sessions, last_place, lemma_open_is_waiting,
    lemma_without_closes, lemma_without_other, open_session, open_sessions, open_since, pairing,
    pairing_step, waiting_upto, waits, without_task,
};
use crate::store::{
    LogModel, appended, appended_event, deleted, has_id, lemma_remove_keeps_valid, log_valid,
    precedes,
};
use crate::totals::{TotalModel, duration, tasks_of, total_of, totals};

verus! {

/// Whether `events` are the events of one task alone, a start and an end in
/// turn, beginning with a start: sessions that do not overlap.
pub open spec fn alternating(events: Seq<EventModel>, task: Seq<char>) -> bool {
    forall|i: int|
        0 <= i < events.len() ==> (#[trigger] events[i]).task == task && events[i].action == (if i
            % 2 == 0 {
            Action::Start
        } else {
            Action::End
        })
}

/// The sum of end minus start over the pairs of an alternating log: the
/// first event with the second, the third with the fourth, and so on.
pub open spec fn paired_sum(events: Seq<EventModel>) -> int
    decreases events.len(),
{
    if events.len() < 2 {
        0
    } else if events.len() % 2 == 1 {
        paired_sum(events.drop_last())
    } else {
        paired_sum(events.drop_last().drop_last()) + (events[events.len() - 1].at - events[events.len()
            - 2].at)
    }
}

/// Pairing is correct: in a log of one task whose sessions do not overlap,
/// each start is paired with the end that follows it, a last start without an
/// end stays open, and the task's total is the sum of end minus start over
/// the pairs.
pub proof fn law_pairing_correct(events: Seq<EventModel>, task: Seq<char>)
    requires
        alternating(events, task),
    ensures
        pairing(events).closed.len() == events.len() / 2,
        forall|k: int|
            0 <= k < pairing(events).closed.len() ==> #[trigger] pairing(events).closed[k] == (
            SessionModel { task, start: events[2 * k].at, end: Some(events[2 * k + 1].at) }),
        pairing(events).open == if events.len() % 2 == 1 {
            seq![OpenModel { task, since: events.last().at }]
        } else {
            Seq::empty()
        },
        pairing(events).anomalies.len() <= pairing(events).closed.len(),
        total_of(pairing(events).closed, task) == paired_sum(events),
        totals(pairing(events).closed) == if events.len() >= 2 {
            seq![TotalModel { task, nanos: paired_sum(events) }]
        } else {
            Seq::empty()
        },
    decreases events.len(),
{
    if events.len() > 0 {
        let earlier = events.drop_last();
        let n = events.len() as int;
        assert(alternating(earlier, task)) by {
            assert forall|i: int| 0 <= i < earlier.len() implies (#[trigger] earlier[i]).task
                == task && earlier[i].action == (if i % 2 == 0 {
                Action::Start
            } else {
                Action::End
            }) by {
                assert(earlier[i] == events[i]);
            }
        }
        law_pairing_correct(earlier, task);
        let before = pairing(earlier);
        let after = pairing(events);
        let last = events[n - 1];
        assert(events.last() == last);
        assert(last.task == task);
        if n % 2 == 1 {
            assert(last.action == Action::Start);
            assert(before.open =~= Seq::empty());
            assert(after.open =~= seq![OpenModel { task, since: last.at }]);
            assert(after.closed == before.closed);
            assert(after.anomalies == before.anomalies);
            assert forall|k: int| 0 <= k < after.closed.len() implies #[trigger] after.closed[k]
                == (SessionModel {
                task,
                start: events[2 * k].at,
                end: Some(events[2 * k + 1].at),
            }) by {
                assert(before.closed[k] == (SessionModel {
                    task,
                    start: earlier[2 * k].at,
                    end: Some(earlier[2 * k + 1].at),
                }));
            }
        } else {
            assert(last.action == Action::End);
            let opened = OpenModel { task, since: earlier.last().at };
            assert(earlier.last() == events[n - 2]);
            assert(before.open == seq![opened]);
            assert(seq![opened].last() == opened);
            assert(seq![opened].drop_last() =~= Seq::<OpenModel>::empty());
            assert(open_since(before.open, task) == Some(opened.since));
            assert(before.open.drop_last() =~= Seq::<OpenModel>::empty());
            assert(without_task(Seq::<OpenModel>::empty(), task) =~= Seq::empty());
            assert(without_task(before.open, task) == without_task(
                before.open.drop_last(),
                task,
            ));
            let session = SessionModel { task, start: opened.since, end: Some(last.at) };
            assert(after.closed == before.closed.push(session));
            assert(after.open =~= Seq::empty());
            assert(after.closed.drop_last() =~= before.closed);
            assert(after.closed.last() == session);
            assert(total_of(after.closed, task) == total_of(before.closed, task) + duration(
                session,
            ));
            assert(paired_sum(earlier) == paired_sum(earlier.drop_last()));
            assert forall|k: int| 0 <= k < after.closed.len() implies #[trigger] after.closed[k]
                == (SessionModel {
                task,
                start: events[2 * k].at,
                end: Some(events[2 * k + 1].at),
            }) by {
                if k < before.closed.len() {
                    assert(before.closed[k] == (SessionModel {
                        task,
                        start: earlier[2 * k].at,
                        end: Some(earlier[2 * k + 1].at),
                    }));
                }
            }
            let rows_before = tasks_of(before.closed);
            if before.closed.len() > 0 {
                assert(earlier.len() >= 2);
                assert(totals(before.closed).len() == 1);
                assert(rows_before.len() == 1);
                assert(totals(before.closed)[0].task == rows_before[0]);
                assert(rows_before[0] == task);
                assert(rows_before.contains(task));
                assert(tasks_of(after.closed) == rows_before);
            } else {
                assert(totals(before.closed).len() == 0);
                assert(rows_before.len() == 0);
                assert(!rows_before.contains(task));
                assert(tasks_of(after.closed) == rows_before.push(task));
            }
            assert(tasks_of(after.closed).len() == 1);
            assert(tasks_of(after.closed)[0] == task);
            assert(totals(after.closed) =~= seq![
                TotalModel { task, nanos: paired_sum(events) },
            ]);
        }
    } else {
        assert(totals(pairing(events).closed) =~= Seq::empty());
    }
}

/// An event of one task leaves the open start and the closed sessions of
/// every other task as they were.
pub proof fn lemma_step_other(events: Seq<EventModel>, event: EventModel, task: Seq<char>)
    requires
        event.task != task,
    ensures
        open_since(pairing(events.push(event)).open, task) == open_since(
            pairing(events).open,
            task,
        ),
        total_of(pairing(events.push(event)).closed, task) == total_of(
            pairing(events).closed,
            task,
        ),
        tasks_of(pairing(events.push(event)).closed).contains(task) == tasks_of(
            pairing(events).closed,
        ).contains(task),
{
    let before = pairing(events);
    let after = pairing(events.push(event));
    assert(events.push(event).drop_last() =~= events);
    assert(events.push(event).last() == event);
    assert(after == pairing_step(before, event));
    lemma_without_other(before.open, event.task, task);
    let others = without_task(before.open, event.task);
    let opened = OpenModel { task: event.task, since: event.at };
    assert(others.push(opened).drop_last() =~= others);
    assert(others.push(opened).last() == opened);
    if after.closed != before.closed {
        let since = open_since(before.open, event.task)->0;
        let session = SessionModel { task: event.task, start: since, end: Some(event.at) };
        assert(after.closed == before.closed.push(session));
        assert(after.closed.drop_last() =~= before.closed);
        assert(after.closed.last() == session);
        let rows = tasks_of(before.closed);
        if !rows.contains(event.task) {
            assert(tasks_of(after.closed) == rows.push(event.task));
            if rows.contains(task) {
                let k = choose|k: int| 0 <= k < rows.len() && rows[k] == task;
                assert(rows.push(event.task)[k] == task);
            }
            if rows.push(event.task).contains(task) {
                let k = choose|k: int|
                    0 <= k < rows.push(event.task).len() && rows.push(event.task)[k] == task;
                assert(rows[k] == task);
            }
        }
    }
}

/// The last event of `task` in a log, if the log holds one.
pub open spec fn last_of(events: Seq<EventModel>, task: Seq<char>) -> Option<EventModel>
    decreases events.len(),
{
    if events.len() == 0 {
        None
    } else if events.last().task == task {
        Some(events.last())
    } else {
        last_of(events.drop_last(), task)
    }
}

/// The start that `task` is waiting on: the time of its last event, where
/// that event is a start.
pub open spec fn waiting_start(events: Seq<EventModel>, task: Seq<char>) -> Option<int> {
    match last_of(events, task) {
        Some(event) => if event.action == Action::Start {
            Some(event.at)
        } else {
            None
        },
        None => None,
    }
}

/// A task is open exactly when its last event is a start, and it is open
/// since that start.
pub proof fn law_open_is_latest_start(events: Seq<EventModel>, task: Seq<char>)
    ensures
        open_since(pairing(events).open, task) == waiting_start(events, task),
    decreases events.len(),
{
    if events.len() > 0 {
        let earlier = events.drop_last();
        let last = events.last();
        law_open_is_latest_start(earlier, task);
        assert(earlier.push(last) =~= events);
        if last.task != task {
            lemma_step_other(earlier, last, task);
        } else {
            let before = pairing(earlier);
            let others = without_task(before.open, task);
            lemma_without_closes(before.open, task);
            let opened = OpenModel { task, since: last.at };
            assert(others.push(opened).last() == opened);
        }
    }
}

/// An end closes the start that its task is waiting on, and no other: where
/// the last event of the task is a start, one session from that start to the
/// end is added; where it is not, no session is added.
pub proof fn law_end_closes_latest_start(events: Seq<EventModel>, end: EventModel)
    requires
        end.action == Action::End,
    ensures
        pairing(events.push(end)).closed == match waiting_start(events, end.task) {
            Some(since) => pairing(events).closed.push(
                SessionModel { task: end.task, start: since, end: Some(end.at) },
            ),
            None => pairing(events).closed,
        },
        waiting_start(events.push(end), end.task) is None,
{
    law_open_is_latest_start(events, end.task);
    assert(events.push(end).drop_last() =~= events);
    assert(events.push(end).last() == end);
}

/// A start closes nothing; it is what its task waits on from then on, and a
/// start that the task was waiting on before is noted as abandoned.
pub proof fn law_start_opens(events: Seq<EventModel>, start: EventModel)
    requires
        start.action == Action::Start,
    ensures
        pairing(events.push(start)).closed == pairing(events).closed,
        waiting_start(events.push(start), start.task) == Some(start.at),
        pairing(events.push(start)).anomalies == match waiting_start(events, start.task) {
            Some(since) => pairing(events).anomalies.push(
                AnomalyModel::AbandonedStart { task: start.task, at: since },
            ),
            None => pairing(events).anomalies,
        },
{
    law_open_is_latest_start(events, start.task);
    assert(events.push(start).drop_last() =~= events);
    assert(events.push(start).last() == start);
}

/// Whether the events at `start` and `end` belong together: a start, and the
/// next event of its task, which is an end.
pub open spec fn closes(events: Seq<EventModel>, start: int, end: int) -> bool {
    &&& 0 <= start < end < events.len()
    &&& events[start].action == Action::Start
    &&& events[end].action == Action::End
    &&& events[start].task == events[end].task
    &&& forall|k: int| start < k < end ==> (#[trigger] events[k]).task != events[end].task
}

/// The session from the event at `start` to the event at `end`.
pub open spec fn session_between(events: Seq<EventModel>, start: int, end: int) -> SessionModel {
    SessionModel { task: events[end].task, start: events[start].at, end: Some(events[end].at) }
}

/// The last event of a task is the one behind which the task has no event.
pub proof fn lemma_last_of_at(events: Seq<EventModel>, task: Seq<char>, at: int)
    requires
        0 <= at < events.len(),
        events[at].task == task,
        forall|k: int| at < k < events.len() ==> (#[trigger] events[k]).task != task,
    ensures
        last_of(events, task) == Some(events[at]),
    decreases events.len(),
{
    if at < events.len() - 1 {
        let earlier = events.drop_last();
        assert(events.last() == events[events.len() - 1]);
        assert(earlier[at] == events[at]);
        assert forall|k: int| at < k < earlier.len() implies (#[trigger] earlier[k]).task
            != task by {
            assert(earlier[k] == events[k]);
        }
        lemma_last_of_at(earlier, task, at);
    }
}

/// Where a task has a last event, it stands at some place in the log, and
/// the task has no event behind that place.
pub proof fn lemma_last_of_place(events: Seq<EventModel>, task: Seq<char>)
    requires
        last_of(events, task) is Some,
    ensures
        exists|at: int|
            0 <= at < events.len() && #[trigger] events[at] == last_of(events, task)->0
                && events[at].task == task && forall|k: int|
                at < k < events.len() ==> (#[trigger] events[k]).task != task,
    decreases events.len(),
{
    if events.last().task == task {
        assert(events[events.len() - 1] == last_of(events, task)->0);
    } else {
        let earlier = events.drop_last();
        lemma_last_of_place(earlier, task);
        let at = choose|at: int|
            0 <= at < earlier.len() && #[trigger] earlier[at] == last_of(earlier, task)->0
                && earlier[at].task == task && forall|k: int|
                at < k < earlier.len() ==> (#[trigger] earlier[k]).task != task;
        assert(events[at] == earlier[at]);
        assert forall|k: int| at < k < events.len() implies (#[trigger] events[k]).task
            != task by {
            if k < earlier.len() {
                assert(earlier[k] == events[k]);
            }
        }
    }
}

/// The closed sessions are the starts that are followed, within their task,
/// by an end: every closed session runs from such a start to that end, and
/// every such start and end give a closed session.
pub proof fn law_sessions_are_adjacent_pairs(events: Seq<EventModel>)
    ensures
        forall|n: int|
            0 <= n < pairing(events).closed.len() ==> exists|i: int, j: int|
                closes(events, i, j) && #[trigger] pairing(events).closed[n] == session_between(
                    events,
                    i,
                    j,
                ),
        forall|i: int, j: int| #[trigger]
            closes(events, i, j) ==> pairing(events).closed.contains(
                session_between(events, i, j),
            ),
    decreases events.len(),
{
    if events.len() > 0 {
        let earlier = events.drop_last();
        let last = events.last();
        let at_last = events.len() - 1;
        assert(last == events[at_last]);
        assert(earlier.push(last) =~= events);
        law_sessions_are_adjacent_pairs(earlier);
        let before = pairing(earlier).closed;
        let after = pairing(events).closed;
        assert forall|i: int, j: int| closes(earlier, i, j) implies closes(events, i, j)
            && session_between(earlier, i, j) == session_between(events, i, j) by {
            assert(earlier[i] == events[i]);
            assert(earlier[j] == events[j]);
            assert forall|k: int| i < k < j implies (#[trigger] events[k]).task
                != events[j].task by {
                assert(earlier[k] == events[k]);
            }
        }
        if last.action == Action::End {
            law_end_closes_latest_start(earlier, last);
        } else {
            law_start_opens(earlier, last);
        }
        let added = last.action == Action::End && waiting_start(earlier, last.task) is Some;
        if added {
            lemma_last_of_place(earlier, last.task);
            let from = choose|at: int|
                0 <= at < earlier.len() && #[trigger] earlier[at] == last_of(earlier, last.task)->0
                    && earlier[at].task == last.task && forall|k: int|
                    at < k < earlier.len() ==> (#[trigger] earlier[k]).task != last.task;
            assert(events[from] == earlier[from]);
            assert forall|k: int| from < k < at_last implies (#[trigger] events[k]).task
                != events[at_last].task by {
                assert(earlier[k] == events[k]);
            }
            assert(closes(events, from, at_last));
            assert(after == before.push(session_between(events, from, at_last)));
        } else {
            assert(after == before);
        }
        assert forall|n: int| 0 <= n < after.len() implies exists|i: int, j: int|
            closes(events, i, j) && #[trigger] after[n] == session_between(events, i, j) by {
            if n < before.len() {
                assert(after[n] == before[n]);
                let (i, j) = choose|i: int, j: int|
                    closes(earlier, i, j) && before[n] == session_between(earlier, i, j);
                assert(closes(events, i, j) && after[n] == session_between(events, i, j));
            }
        }
        assert forall|i: int, j: int| #[trigger] closes(events, i, j) implies after.contains(
            session_between(events, i, j),
        ) by {
            if j < at_last {
                assert(earlier[i] == events[i]);
                assert(earlier[j] == events[j]);
                assert forall|k: int| i < k < j implies (#[trigger] earlier[k]).task
                    != earlier[j].task by {
                    assert(earlier[k] == events[k]);
                }
                assert(closes(earlier, i, j));
                let session = session_between(earlier, i, j);
                assert(before.contains(session));
                let n = choose|n: int| 0 <= n < before.len() && before[n] == session;
                assert(after[n] == session);
            } else {
                assert(earlier[i] == events[i]);
                assert forall|k: int| i < k < earlier.len() implies (#[trigger] earlier[k]).task
                    != last.task by {
                    assert(earlier[k] == events[k]);
                }
                lemma_last_of_at(earlier, last.task, i);
                assert(after[after.len() - 1] == session_between(events, i, j));
            }
        }
    }
}

/// A log without an event of `task` leaves the task unopened and without a
/// closed session.
pub proof fn lemma_untouched(events: Seq<EventModel>, task: Seq<char>)
    requires
        forall|j: int| 0 <= j < events.len() ==> (#[trigger] events[j]).task != task,
    ensures
        open_since(pairing(events).open, task) is None,
        total_of(pairing(events).closed, task) == 0,
        !tasks_of(pairing(events).closed).contains(task),
    decreases events.len(),
{
    if events.len() > 0 {
        let earlier = events.drop_last();
        assert forall|j: int| 0 <= j < earlier.len() implies (#[trigger] earlier[j]).task
            != task by {
            assert(earlier[j] == events[j]);
        }
        lemma_untouched(earlier, task);
        assert(events.last() == events[events.len() - 1]);
        lemma_step_other(earlier, events.last(), task);
        assert(earlier.push(events.last()) =~= events);
    } else {
        assert(tasks_of(pairing(events).closed) =~= Seq::empty());
    }
}

/// A task that is open has an entry among the open starts.
pub proof fn lemma_open_entry(open: Seq<OpenModel>, task: Seq<char>)
    requires
        open_since(open, task) is Some,
    ensures
        exists|k: int|
            0 <= k < open.len() && open[k] == (OpenModel {
                task,
                since: open_since(open, task)->0,
            }),
    decreases open.len(),
{
    if open.last().task == task {
        assert(open[open.len() - 1] == (OpenModel { task, since: open_since(open, task)->0 }));
    } else {
        lemma_open_entry(open.drop_last(), task);
        let k = choose|k: int|
            0 <= k < open.drop_last().len() && open.drop_last()[k] == (OpenModel {
                task,
                since: open_since(open, task)->0,
            });
        assert(open[k] == open.drop_last()[k]);
    }
}

/// An open session is left out of the totals: a task whose only event is a
/// start has no row and a total of nothing, and is listed among the sessions
/// as a session without an end.
pub proof fn law_open_session_excluded(events: Seq<EventModel>, task: Seq<char>, at: int)
    requires
        0 <= at < events.len(),
        events[at].task == task,
        events[at].action == Action::Start,
        forall|j: int| 0 <= j < events.len() && j != at ==> (#[trigger] events[j]).task != task,
    ensures
        open_since(pairing(events).open, task) == Some(events[at].at),
        total_of(pairing(events).closed, task) == 0,
        !tasks_of(pairing(events).closed).contains(task),
        forall|k: int|
            0 <= k < totals(pairing(events).closed).len() ==> (#[trigger] totals(
                pairing(events).closed,
            )[k]).task != task,
        all_sessions(pairing(events)).contains(
            SessionModel { task, start: events[at].at, end: None },
        ),
    decreases events.len(),
{
    let earlier = events.drop_last();
    let last = events.last();
    assert(last == events[events.len() - 1]);
    assert(earlier.push(last) =~= events);
    if at == events.len() - 1 {
        assert forall|j: int| 0 <= j < earlier.len() implies (#[trigger] earlier[j]).task
            != task by {
            assert(earlier[j] == events[j]);
        }
        lemma_untouched(earlier, task);
        let before = pairing(earlier);
        let others = without_task(before.open, task);
        let opened = OpenModel { task, since: last.at };
        assert(pairing(events).open == others.push(opened));
        assert(others.push(opened).last() == opened);
    } else {
        assert(earlier[at] == events[at]);
        assert forall|j: int| 0 <= j < earlier.len() && j != at implies (#[trigger] earlier[j]).task
            != task by {
            assert(earlier[j] == events[j]);
        }
        law_open_session_excluded(earlier, task, at);
        lemma_step_other(earlier, last, task);
    }
    let found = pairing(events);
    let rows = tasks_of(found.closed);
    assert forall|k: int| 0 <= k < totals(found.closed).len() implies (#[trigger] totals(
        found.closed,
    )[k]).task != task by {
        assert(rows.contains(rows[k]));
    }
    lemma_open_entry(found.open, task);
    let k = choose|k: int|
        0 <= k < found.open.len() && found.open[k] == (OpenModel { task, since: events[at].at });
    assert(all_sessions(found)[found.closed.len() + k] == open_session(found.open[k]));
}

/// The sessions of a task among two lists, one behind the other, are its
/// sessions among the first followed by its sessions among the second.
pub proof fn lemma_sessions_of_concat(
    first: Seq<SessionModel>,
    second: Seq<SessionModel>,
    task: Seq<char>,
)
    ensures
        sessions_of(first + second, task) == sessions_of(first, task) + sessions_of(second, task),
    decreases second.len(),
{
    if second.len() == 0 {
        assert(first + second =~= first);
        assert(sessions_of(first, task) + sessions_of(second, task) =~= sessions_of(first, task));
    } else {
        lemma_sessions_of_concat(first, second.drop_last(), task);
        assert((first + second).drop_last() =~= first + second.drop_last());
        assert((first + second).last() == second.last());
        if second.last().task == task {
            assert(sessions_of(first, task) + sessions_of(second.drop_last(), task).push(
                second.last(),
            ) =~= (sessions_of(first, task) + sessions_of(second.drop_last(), task)).push(
                second.last(),
            ));
        }
    }
}

/// A list that holds no session of a task has no sessions of it.
pub proof fn lemma_sessions_of_none(sessions: Seq<SessionModel>, task: Seq<char>)
    requires
        forall|k: int| 0 <= k < sessions.len() ==> (#[trigger] sessions[k]).task != task,
    ensures
        sessions_of(sessions, task) == Seq::<SessionModel>::empty(),
    decreases sessions.len(),
{
    if sessions.len() > 0 {
        let earlier = sessions.drop_last();
        assert forall|k: int| 0 <= k < earlier.len() implies (#[trigger] earlier[k]).task
            != task by {
            assert(earlier[k] == sessions[k]);
        }
        lemma_sessions_of_none(earlier, task);
        assert(sessions.last() == sessions[sessions.len() - 1]);
    }
}

/// The last event of a task stands where the task has no event behind it.
pub proof fn lemma_last_place_at(events: Seq<EventModel>, task: Seq<char>, at: int)
    requires
        0 <= at < events.len(),
        events[at].task == task,
        forall|k: int| at < k < events.len() ==> (#[trigger] events[k]).task != task,
    ensures
        last_place(events, task) == Some(at),
    decreases events.len(),
{
    if at < events.len() - 1 {
        let earlier = events.drop_last();
        assert(events.last() == events[events.len() - 1]);
        assert(earlier[at] == events[at]);
        assert forall|k: int| at < k < earlier.len() implies (#[trigger] earlier[k]).task
            != task by {
            assert(earlier[k] == events[k]);
        }
        lemma_last_place_at(earlier, task, at);
    }
}

/// Among the starts that are waiting, a task whose only event is a start
/// has that start and no other.
pub proof fn lemma_waiting_of_task(events: Seq<EventModel>, task: Seq<char>, at: int, upto: int)
    requires
        0 <= at < events.len(),
        0 <= upto <= events.len(),
        events[at].task == task,
        events[at].action == Action::Start,
        forall|j: int| 0 <= j < events.len() && j != at ==> (#[trigger] events[j]).task != task,
    ensures
        sessions_of(open_sessions(waiting_upto(events, upto)), task) == if upto > at {
            seq![SessionModel { task, start: events[at].at, end: None }]
        } else {
            Seq::<SessionModel>::empty()
        },
    decreases upto,
{
    if upto > 0 {
        lemma_waiting_of_task(events, task, at, upto - 1);
        let place = upto - 1;
        let earlier = waiting_upto(events, place);
        let opened = OpenModel { task: events[place].task, since: events[place].at };
        let listed = open_sessions(earlier);
        assert(open_sessions(earlier.push(opened)) =~= listed.push(open_session(opened)));
        assert(listed.push(open_session(opened)).drop_last() =~= listed);
        assert(listed.push(open_session(opened)).last() == open_session(opened));
        if place == at {
            lemma_last_place_at(events, task, at);
            assert(waits(events, at));
            assert(Seq::<SessionModel>::empty().push(open_session(opened)) =~= seq![
                SessionModel { task, start: events[at].at, end: None },
            ]);
        } else {
            assert(events[place].task != task);
        }
    } else {
        assert(open_sessions(waiting_upto(events, upto)) =~= Seq::<SessionModel>::empty());
    }
}

/// An open session is listed once: a task whose only event is a start has,
/// among all the sessions, that one session without an end and no other.
pub proof fn law_open_session_listed_once(events: Seq<EventModel>, task: Seq<char>, at: int)
    requires
        0 <= at < events.len(),
        events[at].task == task,
        events[at].action == Action::Start,
        forall|j: int| 0 <= j < events.len() && j != at ==> (#[trigger] events[j]).task != task,
    ensures
        sessions_of(all_sessions(pairing(events)), task) == seq![
            SessionModel { task, start: events[at].at, end: None },
        ],
{
    let found = pairing(events);
    law_sessions_are_adjacent_pairs(events);
    assert forall|k: int| 0 <= k < found.closed.len() implies (#[trigger] found.closed[k]).task
        != task by {
        let (i, j) = choose|i: int, j: int|
            closes(events, i, j) && found.closed[k] == session_between(events, i, j);
        if events[j].task == task {
            assert(j == at);
        }
    }
    lemma_sessions_of_none(found.closed, task);
    lemma_open_is_waiting(events);
    lemma_waiting_of_task(events, task, at, events.len() as int);
    lemma_sessions_of_concat(found.closed, open_sessions(found.open), task);
    assert(Seq::<SessionModel>::empty() + seq![
        SessionModel { task, start: events[at].at, end: None },
    ] =~= seq![SessionModel { task, start: events[at].at, end: None }]);
}

/// An end without an open start is tolerated: it closes nothing, opens
/// nothing, and is noted as an orphan end.
pub proof fn law_orphan_end_tolerated(events: Seq<EventModel>, end: EventModel)
    requires
        end.action == Action::End,
        open_since(pairing(events).open, end.task) is None,
    ensures
        pairing(events.push(end)).closed == pairing(events).closed,
        pairing(events.push(end)).open == pairing(events).open,
        pairing(events.push(end)).anomalies == pairing(events).anomalies.push(
            AnomalyModel::OrphanEnd { task: end.task, at: end.at },
        ),
        totals(pairing(events.push(end)).closed) == totals(pairing(events).closed),
{
    assert(events.push(end).drop_last() =~= events);
    assert(events.push(end).last() == end);
}

/// A second start replaces the first: after a start of a task, another start
/// of it and then its end, one session was closed, from the second start to
/// the end; the first start is noted as abandoned and adds to no total.
pub proof fn law_double_start_overwrites(
    events: Seq<EventModel>,
    first: EventModel,
    second: EventModel,
    end: EventModel,
)
    requires
        first.action == Action::Start,
        second.action == Action::Start,
        end.action == Action::End,
        first.task == second.task,
        second.task == end.task,
    ensures
        pairing(events.push(first).push(second).push(end)).closed == pairing(events).closed.push(
            SessionModel { task: end.task, start: second.at, end: Some(end.at) },
        ),
        duration(SessionModel { task: end.task, start: second.at, end: Some(end.at) }) == end.at
            - second.at,
        total_of(pairing(events.push(first).push(second).push(end)).closed, end.task) == total_of(
            pairing(events).closed,
            end.task,
        ) + (end.at - second.at),
        open_since(pairing(events.push(first).push(second).push(end)).open, end.task) is None,
        pairing(events.push(first).push(second)).anomalies == pairing(
            events.push(first),
        ).anomalies.push(AnomalyModel::AbandonedStart { task: end.task, at: first.at }),
{
    let task = end.task;
    let one = events.push(first);
    let two = one.push(second);
    let three = two.push(end);
    assert(one.drop_last() =~= events && one.last() == first);
    assert(two.drop_last() =~= one && two.last() == second);
    assert(three.drop_last() =~= two && three.last() == end);
    let found_before = pairing(events);
    let found_first = pairing(one);
    let found_second = pairing(two);
    let found_end = pairing(three);
    let others_before = without_task(found_before.open, task);
    let opened_first = OpenModel { task, since: first.at };
    assert(found_first.open == others_before.push(opened_first));
    assert(others_before.push(opened_first).last() == opened_first);
    assert(open_since(found_first.open, task) == Some(first.at));
    let others_first = without_task(found_first.open, task);
    let opened_second = OpenModel { task, since: second.at };
    assert(found_second.open == others_first.push(opened_second));
    assert(others_first.push(opened_second).last() == opened_second);
    assert(open_since(found_second.open, task) == Some(second.at));
    assert(found_first.closed == found_before.closed);
    assert(found_second.closed == found_first.closed);
    let session = SessionModel { task, start: second.at, end: Some(end.at) };
    assert(found_end.closed == found_second.closed.push(session));
    assert(found_end.closed.drop_last() =~= found_before.closed);
    assert(found_end.closed.last() == session);
    lemma_without_closes(found_second.open, task);
}

/// Reading again gives the same answer: totals and sessions are functions
/// of the log alone, so two reads with no write between them agree.
pub proof fn law_rescan_agrees(
    log: LogModel,
    task: Option<Seq<char>>,
    first_totals: Seq<TotalModel>,
    second_totals: Seq<TotalModel>,
    first_sessions: Seq<SessionModel>,
    second_sessions: Seq<SessionModel>,
)
    requires
        first_totals == totals(pairing(log.events).closed),
        second_totals == totals(pairing(log.events).closed),
        first_sessions == sessions_found(log.events, task),
        second_sessions == sessions_found(log.events, task),
    ensures
        first_totals == second_totals,
        first_sessions == second_sessions,
{
}

/// An event of a named task that is not earlier than any event of the log
/// goes to its end:
/// a log that is written in the order of time is read in the order in which
/// it was written.
pub proof fn law_timely_append_goes_last(log: LogModel, task: Seq<char>, action: Action, at: int)
    requires
        log_valid(log),
        log.next_id < i64::MAX,
        task.len() > 0,
        forall|i: int| 0 <= i < log.events.len() ==> (#[trigger] log.events[i]).at <= at,
    ensures
        appended(log, task, action, at).events == log.events.push(
            appended_event(log, task, action, at),
        ),
        pairing(appended(log, task, action, at).events) == pairing_step(
            pairing(log.events),
            appended_event(log, task, action, at),
        ),
{
    let event = appended_event(log, task, action, at);
    if log.events.len() > 0 {
        assert(precedes(log.events.last(), event));
    }
    assert(log.events.insert(log.events.len() as int, event) =~= log.events.push(event));
    assert(log.events.push(event).drop_last() =~= log.events);
}

/// Stopping while idle does nothing: no event is written, the tracker stays
/// idle, and the answer is a success that names no event.
pub proof fn law_stop_when_idle(before: LedgerModel, now: int)
    requires
        before.tracker is Idle,
    ensures
        after_stop(before, now) == before,
        stop_answer(before) == Ok::<Option<i64>, LedgerError>(None),
{
}

/// Deleting removes exactly one event: a log that holds the id loses the
/// event that has it and keeps every other event in its place; a log that
/// does not hold the id stays as it is. Reconciliation afterwards reads the
/// log that is left.
pub proof fn law_deletion(log: LogModel, id: int)
    requires
        log_valid(log),
    ensures
        log_valid(deleted(log, id)),
        !has_id(deleted(log, id).events, id),
        !has_id(log.events, id) ==> deleted(log, id) == log,
        has_id(log.events, id) ==> exists|at: int|
            0 <= at < log.events.len() && log.events[at].id == id && deleted(log, id).events
                == log.events.remove(at),
        has_id(log.events, id) ==> deleted(log, id).events.len() == log.events.len() - 1,
        forall|other: int|
            other != id ==> (has_id(deleted(log, id).events, other) <==> has_id(
                log.events,
                other,
            )),
{
    let after = deleted(log, id);
    if has_id(log.events, id) {
        let at = choose|i: int| 0 <= i < log.events.len() && log.events[i].id == id;
        lemma_remove_keeps_valid(log, at);
        assert(after.events == log.events.remove(at));
        if has_id(after.events, id) {
            let k = choose|k: int| 0 <= k < after.events.len() && after.events[k].id == id;
            let from = if k < at {
                k
            } else {
                k + 1
            };
            assert(after.events[k] == log.events[from]);
            if from < at {
                assert(log.events[from].id != log.events[at].id);
            } else {
                assert(log.events[at].id != log.events[from].id);
            }
        }
        assert forall|other: int| other != id implies (has_id(after.events, other) <==> has_id(
            log.events,
            other,
        )) by {
            if has_id(after.events, other) {
                let k = choose|k: int| 0 <= k < after.events.len() && after.events[k].id == other;
                let from = if k < at {
                    k
                } else {
                    k + 1
                };
                assert(log.events[from].id == other);
            }
            if has_id(log.events, other) {
                let k = choose|k: int| 0 <= k < log.events.len() && log.events[k].id == other;
                let to = if k < at {
                    k
                } else {
                    k - 1
                };
                assert(after.events[to].id == other);
            }
        }
    } else {
        assert forall|other: int| other != id implies (has_id(after.events, other) <==> has_id(
            log.events,
            other,
        )) by {}
    }
}

} // verus!
