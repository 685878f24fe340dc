//! History: the sessions of a log, grouped by task.

use vstd::hash_map::StringHashMap;
use vstd::prelude::*;
use crate::reconcile::{Session, SessionModel, session_models};

verus! {

/// The sessions of one task.
#[derive(Debug, PartialEq, Eq)]
pub struct TaskHistory {
    pub task_name: String,
    pub sessions: Vec<Session>,
}

/// The mathematical content of a [`TaskHistory`].
pub ghost struct HistoryModel {
    pub task: Seq<char>,
    pub sessions: Seq<SessionModel>,
}

impl View for TaskHistory {
    type V = HistoryModel;

    open spec fn view(&self) -> HistoryModel {
        HistoryModel { task: self.task_name@, sessions: session_models(self.sessions@) }
    }
}

/// The models of a sequence of groups, in the same order.
pub open spec fn history_models(groups: Seq<TaskHistory>) -> Seq<HistoryModel> {
    Seq::new(groups.len(), |i: int| groups[i]@)
}

/// The sessions of `task` among `sessions`, in their order.
pub open spec fn sessions_of(sessions: Seq<SessionModel>, task: Seq<char>) -> Seq<SessionModel>
    decreases sessions.len(),
{
    if sessions.len() == 0 {
        Seq::empty()
    } else if sessions.last().task == task {
        sessions_of(sessions.drop_last(), task).push(sessions.last())
    } else {
        sessions_of(sessions.drop_last(), task)
    }
}

/// The tasks that have a session, each once, in the order in which they
/// first occur.
pub open spec fn tasks_seen(sessions: Seq<SessionModel>) -> Seq<Seq<char>>
    decreases sessions.len(),
{
    if sessions.len() == 0 {
        Seq::empty()
    } else {
        let earlier = tasks_seen(sessions.drop_last());
        if earlier.contains(sessions.last().task) {
            earlier
        } else {
            earlier.push(sessions.last().task)
        }
    }
}

/// The sessions grouped by task: one group for each task that has a
/// session, holding the sessions of that task in their order.
pub open spec fn grouped(sessions: Seq<SessionModel>) -> Seq<HistoryModel> {
    let tasks = tasks_seen(sessions);
    Seq::new(
        tasks.len(),
        |i: int| HistoryModel { task: tasks[i], sessions: sessions_of(sessions, tasks[i]) },
    )
}

/// No task is seen twice.
pub proof fn lemma_seen_distinct(sessions: Seq<SessionModel>)
    ensures
        forall|i: int, j: int|
            0 <= i < j < tasks_seen(sessions).len() ==> tasks_seen(sessions)[i] != tasks_seen(
                sessions,
            )[j],
    decreases sessions.len(),
{
    if sessions.len() > 0 {
        let earlier = tasks_seen(sessions.drop_last());
        lemma_seen_distinct(sessions.drop_last());
        assert forall|i: int, j: int| 0 <= i < j < tasks_seen(sessions).len() implies tasks_seen(
            sessions,
        )[i] != tasks_seen(sessions)[j] by {
            if j == earlier.len() {
                assert(!earlier.contains(sessions.last().task));
                assert(earlier[i] == tasks_seen(sessions)[i]);
            }
        }
    }
}

/// A task that was not seen has no session.
pub proof fn lemma_unseen_has_none(sessions: Seq<SessionModel>, task: Seq<char>)
    requires
        !tasks_seen(sessions).contains(task),
    ensures
        sessions_of(sessions, task) == Seq::<SessionModel>::empty(),
    decreases sessions.len(),
{
    if sessions.len() > 0 {
        let earlier = tasks_seen(sessions.drop_last());
        if earlier.contains(task) {
            let k = choose|k: int| 0 <= k < earlier.len() && earlier[k] == task;
            assert(tasks_seen(sessions)[k] == task);
        }
        lemma_unseen_has_none(sessions.drop_last(), task);
        if sessions.last().task == task {
            if earlier.contains(task) {
            } else {
                assert(tasks_seen(sessions).last() == task);
            }
        }
    }
}

/// Whether `index` holds, for each task that has a group, the place of that
/// group, and nothing for a task without one.
spec fn groups_indexed(index: Map<Seq<char>, usize>, groups: Seq<TaskHistory>) -> bool {
    &&& forall|task: Seq<char>| #[trigger]
        index.contains_key(task) ==> index[task] < groups.len() && groups[index[task] as int].task_name@
            == task
    &&& forall|k: int|
        0 <= k < groups.len() ==> index.contains_key((#[trigger] groups[k]).task_name@)
}

/// Groups sessions by task. The tasks come in the order in which they first
/// occur, and the sessions of each task stay in their order. The group of a
/// task is found through a hash map from names to places.
pub fn group_by_task(sessions: &Vec<Session>) -> (groups: Vec<TaskHistory>)
    ensures
        history_models(groups@) == grouped(session_models(sessions@)),
{
    let mut groups: Vec<TaskHistory> = Vec::new();
    let mut index: StringHashMap<usize> = StringHashMap::new();
    let ghost all = session_models(sessions@);
    proof {
        assert(history_models(groups@) =~= grouped(all.take(0)));
    }
    let mut i: usize = 0;
    while i < sessions.len()
        invariant
            i <= sessions.len(),
            all == session_models(sessions@),
            history_models(groups@) == grouped(all.take(i as int)),
            groups_indexed(index@, groups@),
        decreases sessions.len() - i,
    {
        let ghost seen = all.take(i as int);
        let ghost next = all.take(i + 1);
        let ghost groups_before = groups@;
        let ghost tasks = tasks_seen(seen);
        let session = &sessions[i];
        proof {
            assert(next.drop_last() =~= seen);
            assert(next.last() == session@);
            lemma_seen_distinct(seen);
            assert(history_models(groups@).len() == groups.len());
            assert(grouped(seen).len() == tasks.len());
            assert forall|k: int| 0 <= k < groups.len() implies groups[k]@ == (HistoryModel {
                task: tasks[k],
                sessions: sessions_of(seen, tasks[k]),
            }) by {
                assert(history_models(groups@)[k] == grouped(seen)[k]);
            }
        }
        let copy = Session {
            task_name: session.task_name.clone(),
            start: session.start,
            end: session.end,
        };
        let found: Option<usize> = match index.get(session.task_name.as_str()) {
            Some(at) => Some(*at),
            None => None,
        };
        match found {
            Some(at) => {
                let ghost held = groups[at as int].sessions@;
                groups[at].sessions.push(copy);
                proof {
                    assert(tasks[at as int] == session.task_name@);
                    assert(tasks.contains(session.task_name@));
                    assert(tasks_seen(next) == tasks);
                    assert(session_models(groups[at as int].sessions@) =~= session_models(
                        held,
                    ).push(copy@));
                    assert forall|k: int| 0 <= k < groups.len() implies history_models(groups@)[k]
                        == grouped(next)[k] by {
                        if k != at {
                            assert(groups[k] == groups_before[k]);
                            assert(tasks[k] != tasks[at as int]);
                        }
                    }
                    assert(history_models(groups@) =~= grouped(next));
                    assert forall|k: int| 0 <= k < groups.len() implies index@.contains_key(
                        (#[trigger] groups[k]).task_name@,
                    ) by {
                        assert(index@.contains_key(groups_before[k].task_name@));
                    }
                }
            },
            None => {
                let mut first: Vec<Session> = Vec::new();
                first.push(copy);
                let group = TaskHistory { task_name: session.task_name.clone(), sessions: first };
                groups.push(group);
                let ghost index_before = index@;
                index.insert(session.task_name.clone(), groups.len() - 1);
                proof {
                    assert(!tasks.contains(session.task_name@)) by {
                        if tasks.contains(session.task_name@) {
                            let k = choose|k: int|
                                0 <= k < tasks.len() && tasks[k] == session.task_name@;
                            assert(index_before.contains_key(groups_before[k].task_name@));
                        }
                    }
                    lemma_unseen_has_none(seen, session.task_name@);
                    assert(tasks_seen(next) == tasks.push(session.task_name@));
                    assert(session_models(first@) =~= Seq::<SessionModel>::empty().push(copy@));
                    assert forall|k: int| 0 <= k < groups.len() implies history_models(groups@)[k]
                        == grouped(next)[k] by {
                        if k < groups_before.len() {
                            assert(groups[k] == groups_before[k]);
                            assert(tasks.contains(tasks[k]));
                        }
                    }
                    assert(history_models(groups@) =~= grouped(next));
                    assert forall|task: Seq<char>| #[trigger]
                        index@.contains_key(task) implies index@[task] < groups.len()
                        && groups[index@[task] as int].task_name@ == task by {
                        if task != session.task_name@ {
                            assert(index_before.contains_key(task));
                        }
                    }
                    assert forall|k: int| 0 <= k < groups.len() implies index@.contains_key(
                        (#[trigger] groups[k]).task_name@,
                    ) by {
                        if k < groups_before.len() {
                            assert(index_before.contains_key(groups_before[k].task_name@));
                        }
                    }
                }
            },
        }
        i += 1;
    }
    proof {
        assert(all.take(sessions.len() as int) =~= all);
    }
    groups
}

} // verus!
