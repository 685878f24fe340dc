use tat::clock::parse_timestamp;
use tat::event::{Action, Event, Timestamp};
use tat::error::LedgerError;
use tat::reconcile::{
    names_present, reconcile, reconcile_checked, Anomaly, OpenStart, Session,
};
use tat::totals::{sum_sessions, task_totals, to_whole_seconds, TaskTotal};

const SECOND: i64 = 1_000_000_000;

fn at(text: &str) -> Timestamp {
    parse_timestamp(text).unwrap()
}

fn event(id: i64, time: Timestamp, task: &str, action: Action) -> Event {
    Event { id, timestamp: time, task_name: task.to_string(), action }
}

fn secs(n: i64) -> Timestamp {
    Timestamp { nanos: n * SECOND }
}

#[test]
fn scenario_two_tasks_one_in_progress() {
    let events = vec![
        event(1, at("2024-01-01 10:00:00"), "A", Action::Start),
        event(2, at("2024-01-01 10:05:00"), "A", Action::End),
        event(3, at("2024-01-01 10:06:00"), "B", Action::Start),
    ];
    let rows = task_totals(&events);
    assert_eq!(rows.len(), 1);
    assert_eq!(rows[0].task_name, "A");
    assert_eq!(rows[0].nanos, 300 * SECOND as i128);
    assert_eq!(rows[0].seconds(), 300);

    let sessions = reconcile(&events).into_sessions();
    assert_eq!(sessions.len(), 2);
    assert_eq!(
        sessions[0],
        Session {
            task_name: "A".to_string(),
            start: at("2024-01-01 10:00:00"),
            end: Some(at("2024-01-01 10:05:00")),
        }
    );
    assert_eq!(sessions[0].duration_seconds(), Some(300));
    assert_eq!(
        sessions[1],
        Session { task_name: "B".to_string(), start: at("2024-01-01 10:06:00"), end: None }
    );
    assert_eq!(sessions[1].duration_seconds(), None);
    assert_eq!(sessions[1].duration_nanos(), None);
}

#[test]
fn empty_log_gives_nothing() {
    let found = reconcile(&Vec::new());
    assert!(found.closed.is_empty());
    assert!(found.open.is_empty());
    assert!(found.anomalies.is_empty());
    assert!(task_totals(&Vec::new()).is_empty());
}

#[test]
fn pairs_of_one_task_add_up() {
    let events = vec![
        event(1, secs(100), "write", Action::Start),
        event(2, secs(160), "write", Action::End),
        event(3, secs(200), "write", Action::Start),
        event(4, secs(230), "write", Action::End),
        event(5, secs(300), "write", Action::Start),
        event(6, secs(301), "write", Action::End),
    ];
    let found = reconcile(&events);
    assert_eq!(found.closed.len(), 3);
    assert!(found.open.is_empty());
    assert!(found.anomalies.is_empty());
    let rows = task_totals(&events);
    assert_eq!(
        rows,
        vec![TaskTotal { task_name: "write".to_string(), nanos: 91 * SECOND as i128 }]
    );
    assert_eq!(rows[0].seconds(), 91);
}

#[test]
fn rescan_gives_the_same_answer() {
    let events = vec![
        event(1, secs(10), "a", Action::Start),
        event(2, secs(20), "b", Action::Start),
        event(3, secs(30), "a", Action::End),
        event(4, secs(35), "c", Action::End),
        event(5, secs(40), "b", Action::End),
    ];
    assert_eq!(task_totals(&events), task_totals(&events));
    assert_eq!(reconcile(&events), reconcile(&events));
}

#[test]
fn open_session_counts_for_nothing() {
    let events = vec![
        event(1, secs(10), "a", Action::Start),
        event(2, secs(20), "b", Action::Start),
        event(3, secs(30), "a", Action::End),
    ];
    let rows = task_totals(&events);
    assert_eq!(rows, vec![TaskTotal { task_name: "a".to_string(), nanos: 20 * SECOND as i128 }]);
    let found = reconcile(&events);
    assert_eq!(found.open, vec![OpenStart { task_name: "b".to_string(), since: secs(20) }]);
    let sessions = found.into_sessions();
    assert_eq!(
        sessions[1],
        Session { task_name: "b".to_string(), start: secs(20), end: None }
    );
}

#[test]
fn orphan_end_is_noted_and_closes_nothing() {
    let events = vec![
        event(1, secs(10), "a", Action::End),
        event(2, secs(20), "a", Action::Start),
        event(3, secs(25), "a", Action::End),
        event(4, secs(30), "a", Action::End),
    ];
    let found = reconcile(&events);
    assert_eq!(
        found.closed,
        vec![Session { task_name: "a".to_string(), start: secs(20), end: Some(secs(25)) }]
    );
    assert_eq!(
        found.anomalies,
        vec![
            Anomaly::OrphanEnd { task_name: "a".to_string(), at: secs(10) },
            Anomaly::OrphanEnd { task_name: "a".to_string(), at: secs(30) },
        ]
    );
    assert_eq!(task_totals(&events)[0].seconds(), 5);
}

#[test]
fn second_start_replaces_the_first() {
    let events = vec![
        event(1, secs(100), "A", Action::Start),
        event(2, secs(130), "A", Action::Start),
        event(3, secs(190), "A", Action::End),
    ];
    let found = reconcile(&events);
    assert_eq!(
        found.closed,
        vec![Session { task_name: "A".to_string(), start: secs(130), end: Some(secs(190)) }]
    );
    assert_eq!(found.closed[0].duration_seconds(), Some(60));
    assert!(found.open.is_empty());
    assert_eq!(
        found.anomalies,
        vec![Anomaly::AbandonedStart { task_name: "A".to_string(), at: secs(100) }]
    );
    assert_eq!(task_totals(&events)[0].seconds(), 60);
}

#[test]
fn end_before_start_gives_a_negative_duration() {
    let events = vec![
        event(1, secs(100), "a", Action::Start),
        event(2, secs(40), "a", Action::End),
    ];
    let found = reconcile(&events);
    assert_eq!(found.closed[0].duration_nanos(), Some(-60 * SECOND as i128));
    assert_eq!(found.closed[0].duration_seconds(), Some(-60));
    assert_eq!(
        found.anomalies,
        vec![Anomaly::NegativeDuration {
            task_name: "a".to_string(),
            start: secs(100),
            end: secs(40),
        }]
    );
    assert_eq!(task_totals(&events)[0].nanos, -60 * SECOND as i128);
}

#[test]
fn tasks_are_told_apart_by_case() {
    let events = vec![
        event(1, secs(0), "mail", Action::Start),
        event(2, secs(5), "Mail", Action::Start),
        event(3, secs(7), "mail", Action::End),
        event(4, secs(20), "Mail", Action::End),
    ];
    let rows = task_totals(&events);
    assert_eq!(
        rows,
        vec![
            TaskTotal { task_name: "mail".to_string(), nanos: 7 * SECOND as i128 },
            TaskTotal { task_name: "Mail".to_string(), nanos: 15 * SECOND as i128 },
        ]
    );
}

#[test]
fn open_starts_come_in_the_order_of_their_events() {
    let events = vec![
        event(1, secs(0), "a", Action::Start),
        event(2, secs(1), "b", Action::Start),
        event(3, secs(2), "a", Action::Start),
    ];
    let found = reconcile(&events);
    assert_eq!(
        found.open,
        vec![
            OpenStart { task_name: "b".to_string(), since: secs(1) },
            OpenStart { task_name: "a".to_string(), since: secs(2) },
        ]
    );
    assert_eq!(
        found.latest_open(),
        Some(OpenStart { task_name: "a".to_string(), since: secs(2) })
    );
}

#[test]
fn totals_are_summed_before_they_are_truncated() {
    let half = SECOND / 2 + 100_000_000;
    let events = vec![
        event(1, Timestamp { nanos: 0 }, "a", Action::Start),
        event(2, Timestamp { nanos: half }, "a", Action::End),
        event(3, Timestamp { nanos: SECOND }, "a", Action::Start),
        event(4, Timestamp { nanos: SECOND + half }, "a", Action::End),
    ];
    let found = reconcile(&events);
    assert_eq!(found.closed[0].duration_seconds(), Some(0));
    assert_eq!(found.closed[1].duration_seconds(), Some(0));
    let rows = task_totals(&events);
    assert_eq!(rows[0].nanos, 1_200_000_000);
    assert_eq!(rows[0].seconds(), 1);
}

#[test]
fn whole_seconds_truncate_toward_zero() {
    assert_eq!(to_whole_seconds(1_999_999_999), 1);
    assert_eq!(to_whole_seconds(999_999_999), 0);
    assert_eq!(to_whole_seconds(0), 0);
    assert_eq!(to_whole_seconds(-1), 0);
    assert_eq!(to_whole_seconds(-1_500_000_000), -1);
    assert_eq!(to_whole_seconds(-2_000_000_000), -2);
    assert_eq!(to_whole_seconds(i128::MAX), i128::MAX / 1_000_000_000);
    assert_eq!(to_whole_seconds(i128::MIN), i128::MIN / 1_000_000_000);
}

#[test]
fn widest_sessions_add_up_without_overflow() {
    let events = vec![
        event(1, Timestamp { nanos: i64::MIN }, "a", Action::Start),
        event(2, Timestamp { nanos: i64::MAX }, "a", Action::End),
        event(3, Timestamp { nanos: i64::MIN }, "a", Action::Start),
        event(4, Timestamp { nanos: i64::MAX }, "a", Action::End),
    ];
    let rows = task_totals(&events);
    assert_eq!(rows[0].nanos, 2 * (u64::MAX as i128));
}

#[test]
fn sum_sessions_skips_open_sessions() {
    let sessions = vec![
        Session { task_name: "a".to_string(), start: secs(0), end: None },
        Session { task_name: "b".to_string(), start: secs(0), end: Some(secs(9)) },
        Session { task_name: "a".to_string(), start: secs(5), end: Some(secs(6)) },
        Session { task_name: "b".to_string(), start: secs(10), end: Some(secs(11)) },
    ];
    let rows = sum_sessions(&sessions);
    assert_eq!(
        rows,
        vec![
            TaskTotal { task_name: "b".to_string(), nanos: 10 * SECOND as i128 },
            TaskTotal { task_name: "a".to_string(), nanos: SECOND as i128 },
        ]
    );
}

#[test]
fn many_tasks_open_and_close_in_any_order() {
    let mut events = Vec::new();
    let mut id = 0;
    for round in 0..3i64 {
        for task in ["a", "b", "c", "d"] {
            id += 1;
            events.push(event(id, secs(id), task, Action::Start));
        }
        for task in ["c", "a"] {
            id += 1;
            events.push(event(id, secs(id + round), task, Action::End));
        }
    }
    let found = reconcile(&events);
    assert_eq!(found.closed.len(), 6);
    assert_eq!(
        found.open,
        vec![
            OpenStart { task_name: "b".to_string(), since: secs(14) },
            OpenStart { task_name: "d".to_string(), since: secs(16) },
        ]
    );
    assert_eq!(found.anomalies.len(), 4);
    assert_eq!(
        found.closed[0],
        Session { task_name: "c".to_string(), start: secs(3), end: Some(secs(5)) }
    );
    assert_eq!(
        found.closed[5],
        Session { task_name: "a".to_string(), start: secs(13), end: Some(secs(20)) }
    );
}

#[test]
fn a_log_with_an_unnamed_event_is_refused() {
    let good = vec![
        event(1, secs(10), "a", Action::Start),
        event(2, secs(20), "a", Action::End),
    ];
    assert!(names_present(&good));
    assert_eq!(reconcile_checked(&good), Ok(reconcile(&good)));
    let damaged = vec![
        event(1, secs(10), "a", Action::Start),
        event(2, secs(15), "", Action::Start),
        event(3, secs(20), "a", Action::End),
    ];
    assert!(!names_present(&damaged));
    assert_eq!(reconcile_checked(&damaged), Err(LedgerError::Persistence));
    assert!(names_present(&Vec::new()));
    assert_eq!(reconcile_checked(&Vec::new()), Ok(reconcile(&Vec::new())));
}
