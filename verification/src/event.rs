//! Events: the immutable facts that the ledger records.

use vstd::prelude::*;

verus! {

/// What an event records of its task.
#[derive(Clone, Copy, Debug, PartialEq, Eq, Structural)]
pub enum Action {
    Start,
    End,
}

/// A point in wall-clock time, in nanoseconds since 1970-01-01 00:00:00.
#[derive(Clone, Copy, Debug, PartialEq, Eq, Structural)]
pub struct Timestamp {
    pub nanos: i64,
}

/// One start or end of a task, as the store holds it.
#[derive(Debug, PartialEq, Eq)]
pub struct Event {
    pub id: i64,
    pub timestamp: Timestamp,
    pub task_name: String,
    pub action: Action,
}

/// The mathematical content of an [`Event`].
pub ghost struct EventModel {
    pub id: int,
    pub at: int,
    pub task: Seq<char>,
    pub action: Action,
}

impl View for Event {
    type V = EventModel;

    open spec fn view(&self) -> EventModel {
        EventModel {
            id: self.id as int,
            at: self.timestamp.nanos as int,
            task: self.task_name@,
            action: self.action,
        }
    }
}

/// The models of a sequence of events, in the same order.
pub open spec fn event_models(events: Seq<Event>) -> Seq<EventModel> {
    Seq::new(events.len(), |i: int| events[i]@)
}

/// The text that the store holds for each action.
pub open spec fn action_text(action: Action) -> Seq<char> {
    match action {
        Action::Start => "start"@,
        Action::End => "end"@,
    }
}

/// The action that a text of the store stands for, if any.
pub open spec fn parsed_action(text: Seq<char>) -> Option<Action> {
    if text == "start"@ {
        Some(Action::Start)
    } else if text == "end"@ {
        Some(Action::End)
    } else {
        None
    }
}

/// Whether two texts hold the same characters.
pub fn same_text(a: &str, b: &str) -> (same: bool)
    ensures
        same == (a@ == b@),
{
    let left: String = a.to_owned();
    let right: String = b.to_owned();
    left == right
}

impl Action {
    /// The text that the store holds for this action.
    pub fn as_str(&self) -> (text: &'static str)
        ensures
            text@ == action_text(*self),
    {
        match self {
            Action::Start => "start",
            Action::End => "end",
        }
    }

    /// Reads an action from the store's text: `start` or `end`, nothing else.
    pub fn parse(text: &str) -> (action: Option<Action>)
        ensures
            action == parsed_action(text@),
    {
        if same_text(text, "start") {
            Some(Action::Start)
        } else if same_text(text, "end") {
            Some(Action::End)
        } else {
            None
        }
    }
}

impl Event {
    /// A copy of this event.
    pub fn duplicate(&self) -> (copy: Event)
        ensures
            copy == *self,
    {
        Event {
            id: self.id,
            timestamp: self.timestamp,
            task_name: self.task_name.clone(),
            action: self.action,
        }
    }
}

} // verus!
