use tat::error::LedgerError;
use tat::event::{Action, Event, Timestamp};
use tat::history::{group_by_task, TaskHistory};
use tat::ledger::Ledger;
use tat::reconcile::{Anomaly, Session};
use tat::store::{comes_before, EventLog};
use tat::totals::TaskTotal;
use tat::tracker::{Active, Tracker};

const SECOND: i64 = 1_000_000_000;

fn secs(n: i64) -> Timestamp {
    Timestamp { nanos: n * SECOND }
}

fn event(id: i64, time: Timestamp, task: &str, action: Action) -> Event {
    Event { id, timestamp: time, task_name: task.to_string(), action }
}

#[test]
fn a_new_ledger_is_empty_and_idle() {
    let ledger = Ledger::new();
    assert_eq!(ledger.log().len(), 0);
    assert_eq!(ledger.log().next_id(), 1);
    assert_eq!(*ledger.tracker(), Tracker::Idle);
    assert!(ledger.get_totals().is_empty());
    assert!(ledger.get_sessions(None).is_empty());
    assert_eq!(ledger.peek_active(secs(5)), Active::Idle);
}

#[test]
fn start_then_stop_writes_two_events() {
    let mut ledger = Ledger::new();
    assert_eq!(ledger.start_task("A".to_string(), secs(100)), Ok(1));
    assert_eq!(
        *ledger.tracker(),
        Tracker::Running { task_name: "A".to_string(), since: secs(100) }
    );
    assert_eq!(
        ledger.peek_active(secs(130)),
        Active::Running { task_name: "A".to_string(), elapsed_nanos: 30 * SECOND as i128 }
    );
    assert_eq!(ledger.stop_task(secs(160)), Ok(Some(2)));
    assert_eq!(*ledger.tracker(), Tracker::Idle);
    assert_eq!(
        ledger.log().scan_all(),
        vec![event(1, secs(100), "A", Action::Start), event(2, secs(160), "A", Action::End)]
    );
    assert_eq!(
        ledger.get_totals(),
        vec![TaskTotal { task_name: "A".to_string(), nanos: 60 * SECOND as i128 }]
    );
}

#[test]
fn stop_when_idle_writes_nothing() {
    let mut ledger = Ledger::new();
    assert_eq!(ledger.stop_task(secs(1)), Ok(None));
    assert_eq!(ledger.log().len(), 0);
    assert_eq!(ledger.log().next_id(), 1);
    assert_eq!(*ledger.tracker(), Tracker::Idle);

    ledger.start_task("A".to_string(), secs(2)).unwrap();
    ledger.stop_task(secs(3)).unwrap();
    assert_eq!(ledger.stop_task(secs(4)), Ok(None));
    assert_eq!(ledger.log().len(), 2);
}

#[test]
fn an_empty_name_is_refused_before_any_write() {
    let mut ledger = Ledger::new();
    assert_eq!(ledger.start_task(String::new(), secs(1)), Err(LedgerError::InvalidArgument));
    assert_eq!(ledger.stop_named(String::new(), secs(1)), Err(LedgerError::InvalidArgument));
    assert_eq!(ledger.log().len(), 0);
    assert_eq!(*ledger.tracker(), Tracker::Idle);
}

#[test]
fn a_new_start_does_not_end_the_running_task() {
    let mut ledger = Ledger::new();
    ledger.start_task("A".to_string(), secs(10)).unwrap();
    ledger.start_task("B".to_string(), secs(20)).unwrap();
    assert_eq!(
        *ledger.tracker(),
        Tracker::Running { task_name: "B".to_string(), since: secs(20) }
    );
    assert_eq!(ledger.log().len(), 2);
    ledger.stop_task(secs(50)).unwrap();
    assert_eq!(
        ledger.get_totals(),
        vec![TaskTotal { task_name: "B".to_string(), nanos: 30 * SECOND as i128 }]
    );
    assert_eq!(
        ledger.get_sessions(None),
        vec![
            Session { task_name: "B".to_string(), start: secs(20), end: Some(secs(50)) },
            Session { task_name: "A".to_string(), start: secs(10), end: None },
        ]
    );
}

#[test]
fn stop_named_ends_a_task_that_is_not_the_running_one() {
    let mut ledger = Ledger::new();
    ledger.start_task("A".to_string(), secs(10)).unwrap();
    ledger.start_task("B".to_string(), secs(20)).unwrap();
    assert_eq!(ledger.stop_named("A".to_string(), secs(30)), Ok(3));
    assert_eq!(
        *ledger.tracker(),
        Tracker::Running { task_name: "B".to_string(), since: secs(20) }
    );
    assert_eq!(ledger.stop_named("B".to_string(), secs(45)), Ok(4));
    assert_eq!(*ledger.tracker(), Tracker::Idle);
    assert_eq!(
        ledger.get_totals(),
        vec![
            TaskTotal { task_name: "A".to_string(), nanos: 20 * SECOND as i128 },
            TaskTotal { task_name: "B".to_string(), nanos: 25 * SECOND as i128 },
        ]
    );
}

#[test]
fn sessions_of_one_task() {
    let mut ledger = Ledger::new();
    ledger.start_task("A".to_string(), secs(10)).unwrap();
    ledger.stop_task(secs(15)).unwrap();
    ledger.start_task("B".to_string(), secs(20)).unwrap();
    ledger.stop_task(secs(26)).unwrap();
    ledger.start_task("A".to_string(), secs(30)).unwrap();
    let name = "A".to_string();
    assert_eq!(
        ledger.get_sessions(Some(&name)),
        vec![
            Session { task_name: "A".to_string(), start: secs(10), end: Some(secs(15)) },
            Session { task_name: "A".to_string(), start: secs(30), end: None },
        ]
    );
    let other = "C".to_string();
    assert!(ledger.get_sessions(Some(&other)).is_empty());
    assert_eq!(ledger.get_sessions(None).len(), 3);
    assert_eq!(ledger.get_sessions(None), ledger.get_sessions(None));
    assert_eq!(ledger.get_totals(), ledger.get_totals());
}

#[test]
fn deleting_an_event_changes_what_reconciliation_finds() {
    let mut ledger = Ledger::new();
    ledger.start_task("A".to_string(), secs(10)).unwrap();
    ledger.stop_task(secs(15)).unwrap();
    ledger.start_task("A".to_string(), secs(20)).unwrap();
    ledger.stop_task(secs(50)).unwrap();
    assert_eq!(ledger.get_totals()[0].seconds(), 35);

    assert!(ledger.delete_event(3));
    assert_eq!(
        ledger.log().scan_all(),
        vec![
            event(1, secs(10), "A", Action::Start),
            event(2, secs(15), "A", Action::End),
            event(4, secs(50), "A", Action::End),
        ]
    );
    assert_eq!(ledger.get_totals()[0].seconds(), 5);
    assert_eq!(
        ledger.reconcile().anomalies,
        vec![Anomaly::OrphanEnd { task_name: "A".to_string(), at: secs(50) }]
    );

    assert!(!ledger.delete_event(3));
    assert!(!ledger.delete_event(99));
    assert!(!ledger.delete_event(-1));
    assert_eq!(ledger.log().len(), 3);
    assert_eq!(ledger.log().next_id(), 5);
}

#[test]
fn the_log_is_held_in_scan_order() {
    let mut log = EventLog::new();
    assert_eq!(log.append("a".to_string(), Action::Start, secs(30)), Ok(1));
    assert_eq!(log.append("b".to_string(), Action::Start, secs(10)), Ok(2));
    assert_eq!(log.append("c".to_string(), Action::Start, secs(30)), Ok(3));
    assert_eq!(log.append("b".to_string(), Action::End, secs(20)), Ok(4));
    assert_eq!(log.append("d".to_string(), Action::Start, secs(10)), Ok(5));
    let ids: Vec<i64> = log.scan_all().iter().map(|e| e.id).collect();
    assert_eq!(ids, vec![2, 5, 4, 1, 3]);
    assert_eq!(log.events(), &log.scan_all());
    let name = "b".to_string();
    assert_eq!(
        log.scan_by_task(&name),
        vec![event(2, secs(10), "b", Action::Start), event(4, secs(20), "b", Action::End)]
    );
    assert!(log.contains_id(4));
    assert!(!log.contains_id(6));
    assert!(log.delete(4));
    assert!(!log.contains_id(4));
    assert_eq!(log.len(), 4);
}

#[test]
fn scan_order_is_by_time_then_by_id() {
    let a = event(1, secs(5), "x", Action::Start);
    let b = event(2, secs(5), "x", Action::End);
    let c = event(0, secs(6), "x", Action::End);
    assert!(comes_before(&a, &b));
    assert!(!comes_before(&b, &a));
    assert!(comes_before(&b, &c));
    assert!(!comes_before(&a, &a));
}

#[test]
fn restoring_keeps_ids_and_order() {
    let mut ledger = Ledger::new();
    assert!(ledger.restore(event(7, secs(50), "A", Action::End)));
    assert!(ledger.restore(event(3, secs(10), "A", Action::Start)));
    assert!(!ledger.restore(event(7, secs(60), "B", Action::Start)));
    assert!(!ledger.restore(event(-2, secs(60), "B", Action::Start)));
    assert!(!ledger.restore(event(i64::MAX, secs(60), "B", Action::Start)));
    assert_eq!(ledger.log().len(), 2);
    assert_eq!(ledger.log().next_id(), 8);
    assert_eq!(ledger.get_totals()[0].seconds(), 40);
    assert_eq!(*ledger.tracker(), Tracker::Idle);
    assert_eq!(ledger.start_task("B".to_string(), secs(70)), Ok(8));
}

#[test]
fn a_full_log_refuses_to_write_and_keeps_the_tracker() {
    let mut ledger = Ledger::new();
    assert!(ledger.restore(event(i64::MAX - 1, secs(1), "A", Action::Start)));
    assert_eq!(ledger.log().next_id(), i64::MAX);
    assert_eq!(ledger.start_task("B".to_string(), secs(2)), Err(LedgerError::Persistence));
    assert_eq!(*ledger.tracker(), Tracker::Idle);
    assert_eq!(ledger.stop_named("A".to_string(), secs(2)), Err(LedgerError::Persistence));
    ledger.resume();
    assert_eq!(
        *ledger.tracker(),
        Tracker::Running { task_name: "A".to_string(), since: secs(1) }
    );
    assert_eq!(ledger.stop_task(secs(3)), Err(LedgerError::Persistence));
    assert_eq!(
        *ledger.tracker(),
        Tracker::Running { task_name: "A".to_string(), since: secs(1) }
    );
    assert_eq!(ledger.log().len(), 1);
}

#[test]
fn resume_takes_the_latest_open_start() {
    let mut ledger = Ledger::new();
    ledger.restore(event(1, secs(10), "A", Action::Start));
    ledger.restore(event(2, secs(20), "B", Action::Start));
    ledger.restore(event(3, secs(30), "B", Action::End));
    ledger.resume();
    assert_eq!(
        *ledger.tracker(),
        Tracker::Running { task_name: "A".to_string(), since: secs(10) }
    );
    ledger.restore(event(4, secs(40), "A", Action::End));
    ledger.resume();
    assert_eq!(*ledger.tracker(), Tracker::Idle);
}

#[test]
fn the_tracker_alone() {
    let mut tracker = Tracker::new();
    assert!(!tracker.is_running());
    assert_eq!(tracker.stop(), None);
    assert_eq!(tracker.running_task(), None);
    tracker.start("A".to_string(), secs(5));
    assert!(tracker.is_running());
    assert_eq!(tracker.running_task(), Some("A".to_string()));
    assert_eq!(
        tracker.current(secs(4)),
        Active::Running { task_name: "A".to_string(), elapsed_nanos: -(SECOND as i128) }
    );
    assert_eq!(tracker.stop(), Some("A".to_string()));
    assert_eq!(tracker, Tracker::Idle);
    assert_eq!(tracker.current(secs(9)), Active::Idle);
}

#[test]
fn elapsed_time_in_whole_seconds() {
    assert_eq!(Active::Idle.elapsed_seconds(), None);
    let shown = Active::Running { task_name: "A".to_string(), elapsed_nanos: 2_999_999_999 };
    assert_eq!(shown.elapsed_seconds(), Some(2));
    let back = Active::Running { task_name: "A".to_string(), elapsed_nanos: -2_999_999_999 };
    assert_eq!(back.elapsed_seconds(), Some(-2));
}

#[test]
fn history_groups_sessions_by_task() {
    let mut ledger = Ledger::new();
    ledger.start_task("A".to_string(), secs(10)).unwrap();
    ledger.stop_task(secs(15)).unwrap();
    ledger.start_task("B".to_string(), secs(20)).unwrap();
    ledger.stop_task(secs(26)).unwrap();
    ledger.start_task("A".to_string(), secs(30)).unwrap();
    ledger.stop_task(secs(31)).unwrap();
    ledger.start_task("C".to_string(), secs(40)).unwrap();
    assert_eq!(
        ledger.get_history(),
        vec![
            TaskHistory {
                task_name: "A".to_string(),
                sessions: vec![
                    Session { task_name: "A".to_string(), start: secs(10), end: Some(secs(15)) },
                    Session { task_name: "A".to_string(), start: secs(30), end: Some(secs(31)) },
                ],
            },
            TaskHistory {
                task_name: "B".to_string(),
                sessions: vec![Session {
                    task_name: "B".to_string(),
                    start: secs(20),
                    end: Some(secs(26)),
                }],
            },
            TaskHistory {
                task_name: "C".to_string(),
                sessions: vec![Session { task_name: "C".to_string(), start: secs(40), end: None }],
            },
        ]
    );
}

#[test]
fn grouping_keeps_the_order_of_first_occurrence() {
    let sessions = vec![
        Session { task_name: "b".to_string(), start: secs(1), end: None },
        Session { task_name: "a".to_string(), start: secs(2), end: Some(secs(3)) },
        Session { task_name: "b".to_string(), start: secs(4), end: Some(secs(5)) },
    ];
    let groups = group_by_task(&sessions);
    assert_eq!(
        groups,
        vec![
            TaskHistory {
                task_name: "b".to_string(),
                sessions: vec![
                    Session { task_name: "b".to_string(), start: secs(1), end: None },
                    Session { task_name: "b".to_string(), start: secs(4), end: Some(secs(5)) },
                ],
            },
            TaskHistory {
                task_name: "a".to_string(),
                sessions: vec![Session {
                    task_name: "a".to_string(),
                    start: secs(2),
                    end: Some(secs(3)),
                }],
            },
        ]
    );
    assert!(group_by_task(&Vec::new()).is_empty());
}

#[test]
fn the_log_takes_no_event_without_a_task_name() {
    let mut log = EventLog::new();
    assert_eq!(log.append(String::new(), Action::Start, secs(1)), Err(LedgerError::Persistence));
    assert_eq!(log.len(), 0);
    assert_eq!(log.next_id(), 1);
    assert!(!log.restore(event(4, secs(1), "", Action::Start)));
    assert!(!log.contains_id(4));
    assert_eq!(log.next_id(), 1);
    assert_eq!(log.append("a".to_string(), Action::Start, secs(1)), Ok(1));

    let mut ledger = Ledger::new();
    assert!(!ledger.restore(event(4, secs(1), "", Action::End)));
    assert_eq!(ledger.log().len(), 0);
}
