//! Reconciliation: pairing the events of a log into sessions.
//!
//! The log is read in order. A start opens its task, replacing a start
//! of the same task that was still open. An end closes the open start of its
//! task. What does not fit (an end without a start, a start that was replaced,
//! an end that lies before its start) is reported beside the sessions and
//! never stops the pass.

use vstd::hash_map::StringHashMap;
use vstd::prelude::*;
use crate::error::LedgerError;
use crate::event::{Action, Event, EventModel, Timestamp, event_models};

verus! {

/// A start that no end has answered yet.
#[derive(Debug, PartialEq, Eq)]
pub struct OpenStart {
    pub task_name: String,
    pub since: Timestamp,
}

/// The mathematical content of an [`OpenStart`].
pub ghost struct OpenModel {
    pub task: Seq<char>,
    pub since: int,
}

impl View for OpenStart {
    type V = OpenModel;

    open spec fn view(&self) -> OpenModel {
        OpenModel { task: self.task_name@, since: self.since.nanos as int }
    }
}

/// A start paired with the end that answered it, or still waiting for one.
#[derive(Debug, PartialEq, Eq)]
pub struct Session {
    pub task_name: String,
    pub start: Timestamp,
    pub end: Option<Timestamp>,
}

/// The mathematical content of a [`Session`].
pub ghost struct SessionModel {
    pub task: Seq<char>,
    pub start: int,
    pub end: Option<int>,
}

/// The instant of an optional timestamp.
pub open spec fn instant(at: Option<Timestamp>) -> Option<int> {
    match at {
        Some(t) => Some(t.nanos as int),
        None => None,
    }
}

impl View for Session {
    type V = SessionModel;

    open spec fn view(&self) -> SessionModel {
        SessionModel {
            task: self.task_name@,
            start: self.start.nanos as int,
            end: instant(self.end),
        }
    }
}

/// Something in the log that does not fit the pairing. None of these stops
/// reconciliation; each is reported for the caller to log, show or ignore.
#[derive(Debug, PartialEq, Eq)]
pub enum Anomaly {
    /// An end arrived while its task had no open start.
    OrphanEnd { task_name: String, at: Timestamp },
    /// A start at `at` was still open when the task was started again.
    AbandonedStart { task_name: String, at: Timestamp },
    /// A session was closed by an end that lies before its start.
    NegativeDuration { task_name: String, start: Timestamp, end: Timestamp },
}

/// The mathematical content of an [`Anomaly`].
pub ghost enum AnomalyModel {
    OrphanEnd { task: Seq<char>, at: int },
    AbandonedStart { task: Seq<char>, at: int },
    NegativeDuration { task: Seq<char>, start: int, end: int },
}

impl View for Anomaly {
    type V = AnomalyModel;

    open spec fn view(&self) -> AnomalyModel {
        match *self {
            Anomaly::OrphanEnd { task_name, at } => AnomalyModel::OrphanEnd {
                task: task_name@,
                at: at.nanos as int,
            },
            Anomaly::AbandonedStart { task_name, at } => AnomalyModel::AbandonedStart {
                task: task_name@,
                at: at.nanos as int,
            },
            Anomaly::NegativeDuration { task_name, start, end } => AnomalyModel::NegativeDuration {
                task: task_name@,
                start: start.nanos as int,
                end: end.nanos as int,
            },
        }
    }
}

/// The models of a sequence of open starts, in the same order.
pub open spec fn open_models(open: Seq<OpenStart>) -> Seq<OpenModel> {
    Seq::new(open.len(), |i: int| open[i]@)
}

/// The models of a sequence of sessions, in the same order.
pub open spec fn session_models(sessions: Seq<Session>) -> Seq<SessionModel> {
    Seq::new(sessions.len(), |i: int| sessions[i]@)
}

/// The models of a sequence of anomalies, in the same order.
pub open spec fn anomaly_models(anomalies: Seq<Anomaly>) -> Seq<AnomalyModel> {
    Seq::new(anomalies.len(), |i: int| anomalies[i]@)
}

/// When `task` was last started among the open starts, if it is open.
pub open spec fn open_since(open: Seq<OpenModel>, task: Seq<char>) -> Option<int>
    decreases open.len(),
{
    if open.len() == 0 {
        None
    } else if open.last().task == task {
        Some(open.last().since)
    } else {
        open_since(open.drop_last(), task)
    }
}

/// The open starts of every task but `task`, in their order.
pub open spec fn without_task(open: Seq<OpenModel>, task: Seq<char>) -> Seq<OpenModel>
    decreases open.len(),
{
    if open.len() == 0 {
        Seq::empty()
    } else if open.last().task == task {
        without_task(open.drop_last(), task)
    } else {
        without_task(open.drop_last(), task).push(open.last())
    }
}

/// What a prefix of the log amounts to: the starts that are still open, in
/// the order of their events; the sessions that were closed, in the order of
/// their ends; and the anomalies, in the order in which they were met.
pub ghost struct Pairing {
    pub open: Seq<OpenModel>,
    pub closed: Seq<SessionModel>,
    pub anomalies: Seq<AnomalyModel>,
}

/// The pairing after one more event.
pub open spec fn pairing_step(before: Pairing, event: EventModel) -> Pairing {
    let prior = open_since(before.open, event.task);
    let others = without_task(before.open, event.task);
    match event.action {
        Action::Start => Pairing {
            open: others.push(OpenModel { task: event.task, since: event.at }),
            closed: before.closed,
            anomalies: match prior {
                Some(since) => before.anomalies.push(
                    AnomalyModel::AbandonedStart { task: event.task, at: since },
                ),
                None => before.anomalies,
            },
        },
        Action::End => match prior {
            Some(since) => Pairing {
                open: others,
                closed: before.closed.push(
                    SessionModel { task: event.task, start: since, end: Some(event.at) },
                ),
                anomalies: if event.at < since {
                    before.anomalies.push(
                        AnomalyModel::NegativeDuration {
                            task: event.task,
                            start: since,
                            end: event.at,
                        },
                    )
                } else {
                    before.anomalies
                },
            },
            None => Pairing {
                open: before.open,
                closed: before.closed,
                anomalies: before.anomalies.push(
                    AnomalyModel::OrphanEnd { task: event.task, at: event.at },
                ),
            },
        },
    }
}

/// The pairing of a whole log, read in the order given.
pub open spec fn pairing(events: Seq<EventModel>) -> Pairing
    decreases events.len(),
{
    if events.len() == 0 {
        Pairing { open: Seq::empty(), closed: Seq::empty(), anomalies: Seq::empty() }
    } else {
        pairing_step(pairing(events.drop_last()), events.last())
    }
}

/// The session that an open start stands for: one without an end.
pub open spec fn open_session(open: OpenModel) -> SessionModel {
    SessionModel { task: open.task, start: open.since, end: None }
}

/// The open starts as sessions without an end, in their order.
pub open spec fn open_sessions(open: Seq<OpenModel>) -> Seq<SessionModel> {
    Seq::new(open.len(), |i: int| open_session(open[i]))
}

/// Every session of a pairing: the closed ones, then the open ones.
pub open spec fn all_sessions(found: Pairing) -> Seq<SessionModel> {
    found.closed + open_sessions(found.open)
}


/// Reading one event more extends the pairing by one step.
pub proof fn lemma_pairing_extends(events: Seq<EventModel>, n: int)
    requires
        0 <= n < events.len(),
    ensures
        pairing(events.take(n + 1)) == pairing_step(pairing(events.take(n)), events[n]),
{
    assert(events.take(n + 1).drop_last() =~= events.take(n));
}

/// What reconciliation found in a log.
#[derive(Debug, PartialEq, Eq)]
pub struct Reconciliation {
    /// The sessions that have ended, in the order of their ends.
    pub closed: Vec<Session>,
    /// The starts that are still waiting for an end, in the order of their events.
    pub open: Vec<OpenStart>,
    /// What did not fit, in the order in which it was met.
    pub anomalies: Vec<Anomaly>,
}

impl View for Reconciliation {
    type V = Pairing;

    open spec fn view(&self) -> Pairing {
        Pairing {
            open: open_models(self.open@),
            closed: session_models(self.closed@),
            anomalies: anomaly_models(self.anomalies@),
        }
    }
}

/// The start that was opened last among `open`, if any is open.
pub open spec fn latest_open(open: Seq<OpenModel>) -> Option<OpenModel> {
    if open.len() == 0 {
        None
    } else {
        Some(open.last())
    }
}

impl Reconciliation {
    /// Every session: the closed ones in the order of their ends, then the
    /// open ones, without an end, in the order of their starts.
    pub fn into_sessions(self) -> (sessions: Vec<Session>)
        ensures
            session_models(sessions@) == all_sessions(self@),
    {
        let Reconciliation { closed, open, anomalies } = self;
        let mut sessions = closed;
        let ghost done = session_models(sessions@);
        let ghost waiting = open_models(open@);
        let mut i: usize = 0;
        proof {
            assert(session_models(sessions@) =~= done + open_sessions(waiting.take(0)));
        }
        while i < open.len()
            invariant
                i <= open.len(),
                waiting == open_models(open@),
                session_models(sessions@) == done + open_sessions(waiting.take(i as int)),
            decreases open.len() - i,
        {
            let ghost before = sessions@;
            let session = Session {
                task_name: open[i].task_name.clone(),
                start: open[i].since,
                end: None,
            };
            sessions.push(session);
            proof {
                assert(session_models(sessions@) =~= session_models(before).push(session@));
                assert(open_sessions(waiting.take(i + 1)) =~= open_sessions(
                    waiting.take(i as int),
                ).push(session@));
                assert(session_models(sessions@) =~= done + open_sessions(waiting.take(i + 1)));
            }
            i += 1;
        }
        proof {
            assert(waiting.take(open.len() as int) =~= waiting);
        }
        sessions
    }

    /// The start that was opened last and is still open, if there is one:
    /// what a tracker resumes from.
    pub fn latest_open(&self) -> (latest: Option<OpenStart>)
        ensures
            match latest_open(self@.open) {
                Some(open) => latest is Some && latest->0@ == open,
                None => latest is None,
            },
    {
        let n: usize = self.open.len();
        if n == 0 {
            None
        } else {
            Some(
                OpenStart {
                    task_name: self.open[n - 1].task_name.clone(),
                    since: self.open[n - 1].since,
                },
            )
        }
    }
}

/// Dropping the open start of one task leaves those of the others.
pub proof fn lemma_without_other(open: Seq<OpenModel>, dropped: Seq<char>, task: Seq<char>)
    requires
        dropped != task,
    ensures
        open_since(without_task(open, dropped), task) == open_since(open, task),
    decreases open.len(),
{
    if open.len() > 0 {
        lemma_without_other(open.drop_last(), dropped, task);
        if open.last().task != dropped {
            let kept = without_task(open.drop_last(), dropped);
            assert(kept.push(open.last()).drop_last() =~= kept);
            assert(kept.push(open.last()).last() == open.last());
        }
    }
}

/// After its open start was dropped, a task is not open.
pub proof fn lemma_without_closes(open: Seq<OpenModel>, task: Seq<char>)
    ensures
        open_since(without_task(open, task), task) is None,
    decreases open.len(),
{
    if open.len() > 0 {
        lemma_without_closes(open.drop_last(), task);
        if open.last().task != task {
            let kept = without_task(open.drop_last(), task);
            assert(kept.push(open.last()).drop_last() =~= kept);
            assert(kept.push(open.last()).last() == open.last());
        }
    }
}

/// A task that is not open has no open start to drop.
pub proof fn lemma_without_absent(open: Seq<OpenModel>, task: Seq<char>)
    requires
        open_since(open, task) is None,
    ensures
        without_task(open, task) == open,
    decreases open.len(),
{
    if open.len() > 0 {
        lemma_without_absent(open.drop_last(), task);
        assert(open.drop_last().push(open.last()) =~= open);
    }
}

/// The place of the last event of `task` in a log, if the log holds one.
pub open spec fn last_place(events: Seq<EventModel>, task: Seq<char>) -> Option<int>
    decreases events.len(),
{
    if events.len() == 0 {
        None
    } else if events.last().task == task {
        Some(events.len() - 1)
    } else {
        last_place(events.drop_last(), task)
    }
}

/// The start that `task` is waiting on: its time and its place in the log,
/// where the last event of the task is a start.
pub open spec fn mark_of(events: Seq<EventModel>, task: Seq<char>) -> Option<(int, int)> {
    match last_place(events, task) {
        Some(at) => if events[at].action == Action::Start {
            Some((events[at].at, at))
        } else {
            None
        },
        None => None,
    }
}

/// Whether the event at `at` is a start that its task is still waiting on.
pub open spec fn waits(events: Seq<EventModel>, at: int) -> bool {
    events[at].action == Action::Start && last_place(events, events[at].task) == Some(at)
}

/// The starts among the first `upto` events that their tasks are still
/// waiting on, in the order of the events.
pub open spec fn waiting_upto(events: Seq<EventModel>, upto: int) -> Seq<OpenModel>
    decreases upto,
{
    if upto <= 0 {
        Seq::empty()
    } else {
        let earlier = waiting_upto(events, upto - 1);
        if waits(events, upto - 1) {
            earlier.push(OpenModel { task: events[upto - 1].task, since: events[upto - 1].at })
        } else {
            earlier
        }
    }
}

/// The last event of a task stands in the log and belongs to the task.
pub proof fn lemma_last_place_bounds(events: Seq<EventModel>, task: Seq<char>)
    ensures
        last_place(events, task) matches Some(at) ==> 0 <= at < events.len() && events[at].task
            == task,
    decreases events.len(),
{
    if events.len() > 0 {
        lemma_last_place_bounds(events.drop_last(), task);
    }
}

/// One more event changes what its own task is waiting on, and nothing else.
pub proof fn lemma_mark_step(events: Seq<EventModel>, event: EventModel, task: Seq<char>)
    ensures
        mark_of(events.push(event), task) == if event.task == task {
            if event.action == Action::Start {
                Some((event.at, events.len() as int))
            } else {
                None
            }
        } else {
            mark_of(events, task)
        },
{
    let longer = events.push(event);
    assert(longer.drop_last() =~= events);
    assert(longer.last() == event);
    lemma_last_place_bounds(events, task);
}

/// A task is open exactly when its last event is a start, and it is open
/// since that start.
pub proof fn lemma_open_since_mark(events: Seq<EventModel>, task: Seq<char>)
    ensures
        open_since(pairing(events).open, task) == match mark_of(events, task) {
            Some(mark) => Some(mark.0),
            None => None,
        },
    decreases events.len(),
{
    if events.len() > 0 {
        let earlier = events.drop_last();
        let last = events.last();
        lemma_open_since_mark(earlier, task);
        lemma_mark_step(earlier, last, task);
        assert(earlier.push(last) =~= events);
        let before = pairing(earlier);
        let others = without_task(before.open, last.task);
        let opened = OpenModel { task: last.task, since: last.at };
        assert(others.push(opened).drop_last() =~= others);
        assert(others.push(opened).last() == opened);
        if last.task != task {
            lemma_without_other(before.open, last.task, task);
        } else {
            lemma_without_closes(before.open, task);
        }
    }
}

/// One more event takes the start of its task, if one was waiting, out of
/// the starts that are waiting among the events before it.
pub proof fn lemma_waiting_step(events: Seq<EventModel>, event: EventModel, upto: int)
    requires
        0 <= upto <= events.len(),
    ensures
        waiting_upto(events.push(event), upto) == without_task(
            waiting_upto(events, upto),
            event.task,
        ),
    decreases upto,
{
    if upto > 0 {
        let longer = events.push(event);
        lemma_waiting_step(events, event, upto - 1);
        let at = upto - 1;
        let task = events[at].task;
        assert(longer[at] == events[at]);
        assert(longer.drop_last() =~= events);
        assert(longer.last() == event);
        lemma_last_place_bounds(events, task);
        let earlier = waiting_upto(events, at);
        let opened = OpenModel { task, since: events[at].at };
        assert(earlier.push(opened).drop_last() =~= earlier);
        assert(earlier.push(opened).last() == opened);
    }
}

/// The open starts of a pairing are the starts that their tasks are still
/// waiting on, in the order of their events.
pub proof fn lemma_open_is_waiting(events: Seq<EventModel>)
    ensures
        pairing(events).open == waiting_upto(events, events.len() as int),
    decreases events.len(),
{
    if events.len() > 0 {
        let earlier = events.drop_last();
        let last = events.last();
        lemma_open_is_waiting(earlier);
        assert(earlier.push(last) =~= events);
        lemma_waiting_step(earlier, last, earlier.len() as int);
        let before = pairing(earlier);
        if open_since(before.open, last.task) is None {
            lemma_without_absent(before.open, last.task);
        }
    }
}

/// What the pass remembers of an open task: the time of its start and the
/// place of that start in the log.
#[derive(Clone, Copy)]
struct OpenMark {
    since: Timestamp,
    at: usize,
}

/// Whether `marks` holds, for each task, the start that the task is waiting
/// on in `events`, and nothing for a task that is waiting on none.
spec fn marks_agree(marks: Map<Seq<char>, OpenMark>, events: Seq<EventModel>) -> bool {
    forall|task: Seq<char>|
        (#[trigger] marks.contains_key(task) <==> mark_of(events, task) is Some) && (
        marks.contains_key(task) ==> mark_of(events, task) == Some(
            (marks[task].since.nanos as int, marks[task].at as int),
        ))
}

/// Pairs the events of a log, read in the order given, into sessions. Each
/// event is looked up once in a hash map of the open tasks; a second walk
/// lists the starts that are still open.
pub fn reconcile(events: &Vec<Event>) -> (found: Reconciliation)
    ensures
        found@ == pairing(event_models(events@)),
{
    let mut closed: Vec<Session> = Vec::new();
    let mut anomalies: Vec<Anomaly> = Vec::new();
    let mut marks: StringHashMap<OpenMark> = StringHashMap::new();
    let ghost log = event_models(events@);
    proof {
        assert(session_models(closed@) =~= Seq::empty());
        assert(anomaly_models(anomalies@) =~= Seq::empty());
        assert(log.take(0) =~= Seq::empty());
    }
    let mut i: usize = 0;
    while i < events.len()
        invariant
            i <= events.len(),
            log == event_models(events@),
            marks_agree(marks@, log.take(i as int)),
            session_models(closed@) == pairing(log.take(i as int)).closed,
            anomaly_models(anomalies@) == pairing(log.take(i as int)).anomalies,
        decreases events.len() - i,
    {
        let event = &events[i];
        let ghost seen = log.take(i as int);
        let ghost marks_before = marks@;
        let ghost closed_before = closed@;
        let ghost anomalies_before = anomalies@;
        proof {
            lemma_pairing_extends(log, i as int);
            lemma_open_since_mark(seen, event.task_name@);
            assert(seen.push(log[i as int]) =~= log.take(i + 1));
            assert(log[i as int] == event@);
        }
        let prior: Option<Timestamp> = match marks.get(event.task_name.as_str()) {
            Some(mark) => Some(mark.since),
            None => None,
        };
        assert(instant(prior) == open_since(pairing(seen).open, event.task_name@));
        match event.action {
            Action::Start => {
                marks.insert(event.task_name.clone(), OpenMark { since: event.timestamp, at: i });
                if let Some(since) = prior {
                    let note = Anomaly::AbandonedStart {
                        task_name: event.task_name.clone(),
                        at: since,
                    };
                    anomalies.push(note);
                    proof {
                        assert(anomaly_models(anomalies@) =~= anomaly_models(
                            anomalies_before,
                        ).push(note@));
                    }
                }
            },
            Action::End => {
                match prior {
                    Some(since) => {
                        marks.remove(event.task_name.as_str());
                        let session = Session {
                            task_name: event.task_name.clone(),
                            start: since,
                            end: Some(event.timestamp),
                        };
                        closed.push(session);
                        proof {
                            assert(session_models(closed@) =~= session_models(
                                closed_before,
                            ).push(session@));
                        }
                        if event.timestamp.nanos < since.nanos {
                            let note = Anomaly::NegativeDuration {
                                task_name: event.task_name.clone(),
                                start: since,
                                end: event.timestamp,
                            };
                            anomalies.push(note);
                            proof {
                                assert(anomaly_models(anomalies@) =~= anomaly_models(
                                    anomalies_before,
                                ).push(note@));
                            }
                        }
                    },
                    None => {
                        let note = Anomaly::OrphanEnd {
                            task_name: event.task_name.clone(),
                            at: event.timestamp,
                        };
                        anomalies.push(note);
                        proof {
                            assert(anomaly_models(anomalies@) =~= anomaly_models(
                                anomalies_before,
                            ).push(note@));
                        }
                    },
                }
            },
        }
        proof {
            assert forall|task: Seq<char>|
                (#[trigger] marks@.contains_key(task) <==> mark_of(log.take(i + 1), task) is Some)
                    && (marks@.contains_key(task) ==> mark_of(log.take(i + 1), task) == Some(
                    (marks@[task].since.nanos as int, marks@[task].at as int),
                )) by {
                lemma_mark_step(seen, event@, task);
                assert(marks_before.contains_key(task) <==> mark_of(seen, task) is Some);
            }
        }
        i += 1;
    }
    proof {
        assert(log.take(events.len() as int) =~= log);
        lemma_open_is_waiting(log);
    }
    let mut open: Vec<OpenStart> = Vec::new();
    proof {
        assert(open_models(open@) =~= waiting_upto(log, 0));
    }
    let mut j: usize = 0;
    while j < events.len()
        invariant
            j <= events.len(),
            log == event_models(events@),
            marks_agree(marks@, log),
            open_models(open@) == waiting_upto(log, j as int),
        decreases events.len() - j,
    {
        let event = &events[j];
        let still_open = match event.action {
            Action::Start => match marks.get(event.task_name.as_str()) {
                Some(mark) => mark.at == j,
                None => false,
            },
            Action::End => false,
        };
        proof {
            assert(log[j as int] == event@);
            lemma_last_place_bounds(log, event.task_name@);
            assert(still_open == waits(log, j as int));
        }
        if still_open {
            let ghost before = open@;
            let waiting = OpenStart { task_name: event.task_name.clone(), since: event.timestamp };
            open.push(waiting);
            proof {
                assert(open_models(open@) =~= open_models(before).push(waiting@));
            }
        }
        j += 1;
    }
    Reconciliation { closed, open, anomalies }
}

/// Whether every event names its task.
pub open spec fn all_named(events: Seq<EventModel>) -> bool {
    forall|i: int| 0 <= i < events.len() ==> (#[trigger] events[i]).task.len() > 0
}

/// Whether every event names its task.
pub fn names_present(events: &Vec<Event>) -> (named: bool)
    ensures
        named == all_named(event_models(events@)),
{
    let mut i: usize = 0;
    while i < events.len()
        invariant
            i <= events.len(),
            forall|k: int| 0 <= k < i ==> (#[trigger] event_models(events@)[k]).task.len() > 0,
        decreases events.len() - i,
    {
        if events[i].task_name.as_str().is_empty() {
            proof {
                assert(event_models(events@)[i as int].task.len() == 0);
            }
            return false;
        }
        i += 1;
    }
    true
}

/// Pairs the events of a log that may be damaged. An event without a task
/// name is no fault of the order of events but of the store that held it:
/// such a log is refused. Every other log is reconciled as it stands.
pub fn reconcile_checked(events: &Vec<Event>) -> (found: Result<Reconciliation, LedgerError>)
    ensures
        match found {
            Ok(pairs) => all_named(event_models(events@)) && pairs@ == pairing(
                event_models(events@),
            ),
            Err(error) => !all_named(event_models(events@)) && error == LedgerError::Persistence,
        },
{
    if names_present(events) {
        Ok(reconcile(events))
    } else {
        Err(LedgerError::Persistence)
    }
}

} // verus!
