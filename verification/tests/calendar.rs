use rust_insight::calendar::{add_schedule, delete_schedule, Calendar, DateTime, Schedule};

fn naive_date_time(year: i32, month: u32, day: u32, hour: u32, minute: u32, second: u32) -> DateTime {
    let t = chrono::NaiveDate::from_ymd_opt(year, month, day)
        .unwrap()
        .and_hms_opt(hour, minute, second)
        .unwrap()
        .and_utc();
    DateTime { secs: t.timestamp(), nanos: t.timestamp_subsec_nanos() }
}

fn schedule(id: u64, subject: &str, start: DateTime, end: DateTime) -> Schedule {
    Schedule { id, subject: subject.to_string(), start, end }
}

fn intersects_case(h0: u32, m0: u32, h1: u32, m1: u32, should_intersect: bool) {
    let existing = schedule(0, "기존 일정", naive_date_time(2025, 1, 1, h0, m0, 0), naive_date_time(2025, 1, 1, h1, m1, 0));
    let new_schedule = schedule(999, "신규 일정", naive_date_time(2025, 1, 1, 19, 0, 0), naive_date_time(2025, 1, 1, 20, 0, 0));
    assert_eq!(should_intersect, existing.intersects(&new_schedule));
}

#[test]
fn schedule_intersects_before() {
    intersects_case(18, 15, 18, 45, false);
}

#[test]
fn schedule_intersects_overlapping_start() {
    intersects_case(18, 15, 19, 45, true);
}

#[test]
fn schedule_intersects_enclosing() {
    intersects_case(18, 15, 20, 45, true);
}

#[test]
fn schedule_intersects_enclosed() {
    intersects_case(19, 15, 19, 45, true);
}

#[test]
fn schedule_intersects_overlapping_end() {
    intersects_case(19, 15, 20, 45, true);
}

#[test]
fn schedule_intersects_after() {
    intersects_case(20, 15, 20, 45, false);
}

fn add_schedule_case() {
    let mut calendar = Calendar {
        schedules: vec![schedule(0, "테스트 일정", naive_date_time(2024, 11, 19, 11, 22, 33), naive_date_time(2024, 11, 19, 22, 33, 44))],
    };
    add_schedule(
        &mut calendar,
        "테스트 일정2".to_string(),
        naive_date_time(2024, 12, 8, 9, 0, 0),
        naive_date_time(2024, 12, 8, 10, 30, 0),
    );
    let expected = Calendar {
        schedules: vec![
            schedule(0, "테스트 일정", naive_date_time(2024, 11, 19, 11, 22, 33), naive_date_time(2024, 11, 19, 22, 33, 44)),
            schedule(1, "테스트 일정2", naive_date_time(2024, 12, 8, 9, 0, 0), naive_date_time(2024, 12, 8, 10, 30, 0)),
        ],
    };
    assert_eq!(expected, calendar);
}

#[test]
fn test_add_schedule() {
    add_schedule_case();
}

#[test]
fn main_test_add_schedule() {
    add_schedule_case();
}

fn delete_schedule_case() {
    let mut calendar = Calendar {
        schedules: vec![
            schedule(0, "테스트 일정", naive_date_time(2024, 11, 19, 11, 22, 33), naive_date_time(2024, 11, 19, 22, 33, 44)),
            schedule(1, "테스트 일정2", naive_date_time(2024, 12, 8, 9, 0, 0), naive_date_time(2024, 12, 8, 10, 30, 0)),
            schedule(2, "추가 가능한 일정", naive_date_time(2024, 12, 15, 10, 0, 0), naive_date_time(2024, 12, 15, 11, 00, 0)),
        ],
    };
    delete_schedule(&mut calendar, 0);
    let expected = Calendar {
        schedules: vec![
            schedule(1, "테스트 일정2", naive_date_time(2024, 12, 8, 9, 0, 0), naive_date_time(2024, 12, 8, 10, 30, 0)),
            schedule(2, "추가 가능한 일정", naive_date_time(2024, 12, 15, 10, 0, 0), naive_date_time(2024, 12, 15, 11, 00, 0)),
        ],
    };
    assert_eq!(expected, calendar);
    delete_schedule(&mut calendar, 1);
    let expected = Calendar {
        schedules: vec![schedule(2, "추가 가능한 일정", naive_date_time(2024, 12, 15, 10, 0, 0), naive_date_time(2024, 12, 15, 11, 00, 0))],
    };
    assert_eq!(expected, calendar);
    assert!(delete_schedule(&mut calendar, 2));
    let expected = Calendar { schedules: vec![] };
    assert_eq!(expected, calendar);
}

#[test]
fn test_delete_schedule() {
    delete_schedule_case();
}

#[test]
fn main_test_delete_schedule() {
    delete_schedule_case();
}

#[test]
fn test_add_after_delete() {
    let mut calendar = Calendar {
        schedules: vec![
            schedule(0, "테스트 일정", naive_date_time(2024, 11, 19, 11, 22, 33), naive_date_time(2024, 11, 19, 22, 33, 44)),
            schedule(1, "테스트 일정2", naive_date_time(2024, 12, 8, 9, 0, 0), naive_date_time(2024, 12, 8, 10, 30, 0)),
            schedule(2, "테스트 일정3", naive_date_time(2024, 12, 15, 10, 0, 0), naive_date_time(2024, 12, 15, 11, 00, 0)),
        ],
    };
    delete_schedule(&mut calendar, 0);
    add_schedule(
        &mut calendar,
        "테스트 일정4".to_string(),
        naive_date_time(2024, 12, 22, 10, 0, 0),
        naive_date_time(2024, 12, 22, 11, 00, 0),
    );
    let expected = Calendar {
        schedules: vec![
            schedule(1, "테스트 일정2", naive_date_time(2024, 12, 8, 9, 0, 0), naive_date_time(2024, 12, 8, 10, 30, 0)),
            schedule(2, "테스트 일정3", naive_date_time(2024, 12, 15, 10, 0, 0), naive_date_time(2024, 12, 15, 11, 00, 0)),
            schedule(3, "테스트 일정4", naive_date_time(2024, 12, 22, 10, 0, 0), naive_date_time(2024, 12, 22, 11, 00, 0)),
        ],
    };
    assert_eq!(expected, calendar);
}

#[test]
fn add_rejects_overlapping_schedule() {
    let mut calendar = Calendar { schedules: vec![] };
    assert!(add_schedule(&mut calendar, "a".to_string(), naive_date_time(2024, 1, 1, 9, 0, 0), naive_date_time(2024, 1, 1, 10, 0, 0)));
    assert!(!add_schedule(&mut calendar, "b".to_string(), naive_date_time(2024, 1, 1, 9, 30, 0), naive_date_time(2024, 1, 1, 11, 0, 0)));
    assert_eq!(calendar.schedules.len(), 1);
    // Touching end to start is no overlap.
    assert!(add_schedule(&mut calendar, "c".to_string(), naive_date_time(2024, 1, 1, 10, 0, 0), naive_date_time(2024, 1, 1, 11, 0, 0)));
    assert_eq!(calendar.schedules[1].id, 1);
}

#[test]
fn delete_unknown_id_changes_nothing() {
    let mut calendar = Calendar {
        schedules: vec![schedule(4, "x", naive_date_time(2024, 1, 1, 9, 0, 0), naive_date_time(2024, 1, 1, 10, 0, 0))],
    };
    let before = calendar.clone();
    assert!(!delete_schedule(&mut calendar, 5));
    assert_eq!(before, calendar);
}

#[test]
fn delete_undoes_add() {
    let mut calendar = Calendar {
        schedules: vec![schedule(7, "x", naive_date_time(2024, 1, 1, 9, 0, 0), naive_date_time(2024, 1, 1, 10, 0, 0))],
    };
    let before = calendar.clone();
    assert!(add_schedule(&mut calendar, "y".to_string(), naive_date_time(2024, 1, 2, 9, 0, 0), naive_date_time(2024, 1, 2, 10, 0, 0)));
    assert_eq!(calendar.schedules[1].id, 8);
    assert!(delete_schedule(&mut calendar, 8));
    assert_eq!(before, calendar);
}

#[test]
fn nanoseconds_break_ties() {
    let a = DateTime { secs: 10, nanos: 5 };
    let b = DateTime { secs: 10, nanos: 6 };
    assert!(a.is_before(&b));
    assert!(!b.is_before(&a));
    assert!(!a.is_before(&a));
}
