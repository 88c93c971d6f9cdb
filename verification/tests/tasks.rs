use omacal::tasks::{write_step, WriteAction, WriteEvent, WriteStage};
use omacal::tasks::{created_task, create_href, edited_due_tz, put_href, put_refusal, task_resource, PutFailure, TaskHome, TASK_CHANGED_ON_SERVER, TASK_GONE, TASK_HAS_NO_HREF, TASK_HAS_NO_RESOURCE};
use omacal::tasks::{due_for_in, new_due_time, new_due_time_in, IcsTime};
use omacal::tasks::{completion_change, task_href, done_since, due_for, task_notes, task_title, to_vm, StoredTask, TaskRow, TodoDue, DONE_WINDOW_MS};

fn row(summary: Option<&str>, status: &str, role: &str) -> TaskRow {
    TaskRow {
        task: StoredTask {
            id: 7,
            calendar_id: 2,
            uid: "u".into(),
            etag: None,
            caldav_href: None,
            summary: summary.map(String::from),
            description: Some("the big one".into()),
            due_utc: Some(1_000),
            due_tz: None,
            due_all_day: true,
            status: status.into(),
            completed_utc: None,
            priority: 3,
            updated_at: 0,
            raw_ics: None,
        },
        calendar_summary: "Chores".into(),
        color_hex: Some("#ff0000".into()),
        access_role: role.into(),
    }
}

#[test]
fn a_row_becomes_what_the_pane_draws() {
    let vm = to_vm(&row(Some("Water plants"), "completed", "owner"), false);
    assert_eq!(vm.id, 7);
    assert_eq!(vm.calendar_id, 2);
    assert_eq!(vm.summary, "Water plants");
    assert_eq!(vm.notes.as_deref(), Some("the big one"));
    assert_eq!(vm.due_ms, Some(1_000));
    assert!(vm.due_all_day);
    assert!(vm.completed);
    assert_eq!(vm.calendar, "Chores");
    assert_eq!(vm.color.as_deref(), Some("#ff0000"));
    assert_eq!(vm.priority, 3);
    assert!(vm.can_write);
}

#[test]
fn an_untitled_open_task_on_a_read_only_list() {
    let vm = to_vm(&row(None, "needs-action", "reader"), false);
    assert_eq!(vm.summary, "(untitled)");
    assert!(!vm.completed);
    assert!(!vm.can_write);
}

#[test]
fn demo_mode_writes_nothing() {
    assert!(!to_vm(&row(Some("t"), "needs-action", "owner"), true).can_write);
}

#[test]
fn a_title_is_trimmed_or_refused() {
    assert_eq!(task_title("  Water the plants "), Ok("Water the plants".to_string()));
    assert_eq!(task_title(" \t "), Err("a task needs a title".to_string()));
}

#[test]
fn a_note_of_nothing_is_no_note() {
    assert_eq!(task_notes(Some(" the big one ")), Some("the big one".to_string()));
    assert_eq!(task_notes(Some("   ")), None);
    assert_eq!(task_notes(None), None);
}

#[test]
fn the_done_window_is_a_week() {
    assert_eq!(DONE_WINDOW_MS, 7 * 24 * 3_600_000);
    assert_eq!(done_since(DONE_WINDOW_MS + 5), 5);
}

/// An all-day due date takes its date in the **calendar's** zone.
#[test]
fn an_all_day_due_takes_the_calendars_own_date() {
    // 2026-09-11T00:30 in Asia/Kolkata is 2026-09-10T19:00Z.
    let ms: i64 = "2026-09-10T19:00:00Z".parse::<jiff::Timestamp>().unwrap().as_millisecond();

    let kolkata = due_for(Some(ms), true, "Asia/Kolkata").unwrap();
    assert_eq!(kolkata, Some(TodoDue::Date(jiff::civil::date(2026, 9, 11))));
    let utc = due_for(Some(ms), true, "UTC").unwrap();
    assert_eq!(utc, Some(TodoDue::Date(jiff::civil::date(2026, 9, 10))));

    // A timed due is the instant, whatever the calendar's zone.
    let at = due_for(Some(ms), false, "Asia/Kolkata").unwrap();
    assert_eq!(at, Some(TodoDue::At(jiff::Timestamp::from_millisecond(ms).unwrap())));

    // No date is no date, not an instant at zero.
    assert_eq!(due_for(None, true, "Asia/Kolkata").unwrap(), None);
    assert_eq!(due_for(None, false, "UTC").unwrap(), None);

    // A zone the machine does not know falls back rather than refusing.
    assert!(due_for(Some(ms), true, "Mars/Olympus").unwrap().is_some());
}

#[test]
fn an_instant_beyond_the_calendar_is_refused() {
    assert!(due_for(Some(i64::MAX), false, "UTC").is_err());
    assert!(due_for(Some(i64::MIN), true, "UTC").is_err());
}

#[test]
fn a_new_task_lands_under_its_collection_once_slashed() {
    assert_eq!(task_href("https://dav.example/cal/tasks/", "abc"), "https://dav.example/cal/tasks/abc.ics");
    assert_eq!(task_href("https://dav.example/cal/tasks//", "abc"), "https://dav.example/cal/tasks/abc.ics");
    assert_eq!(task_href("/cal/tasks", "x-1"), "/cal/tasks/x-1.ics");
}

#[test]
fn completing_stamps_and_reopening_clears() {
    assert_eq!(completion_change(true, 42), ("completed".to_string(), Some(42)));
    assert_eq!(completion_change(false, 42), ("needs-action".to_string(), None));
}


#[test]
fn a_rewrite_starts_from_the_stored_resource_or_is_refused() {
    let mut r = row(Some("t"), "needs-action", "owner");
    assert_eq!(task_resource(&r.task, TASK_HAS_NO_RESOURCE), Err("task has no resource".to_string()));
    r.task.raw_ics = Some("BEGIN:VCALENDAR".into());
    assert_eq!(task_resource(&r.task, TASK_GONE), Ok("BEGIN:VCALENDAR".to_string()));
}

#[test]
fn only_a_server_list_is_put_to_and_only_at_the_tasks_own_href() {
    let server = TaskHome::Server("https://dav.example/cal/".into());
    let href = Some("/cal/x.ics".to_string());
    assert_eq!(put_href(&TaskHome::Device, &href, TASK_HAS_NO_HREF), Ok(None));
    assert_eq!(put_href(&TaskHome::Device, &None, TASK_HAS_NO_HREF), Ok(None));
    assert_eq!(put_href(&server, &href, TASK_HAS_NO_HREF), Ok(Some("/cal/x.ics".to_string())));
    assert_eq!(put_href(&server, &None, TASK_GONE), Err("that task is no longer here".to_string()));
}

#[test]
fn a_new_task_on_a_server_gets_its_own_resource_and_on_this_device_none() {
    let server = TaskHome::Server("https://dav.example/cal//".into());
    assert_eq!(create_href(&server, "abc"), Some("https://dav.example/cal/abc.ics".to_string()));
    assert_eq!(create_href(&TaskHome::Device, "abc"), None);
}

#[test]
fn a_stale_etag_says_sync_and_anything_else_passes_through() {
    assert_eq!(put_refusal(&PutFailure::PreconditionFailed), TASK_CHANGED_ON_SERVER);
    assert_eq!(put_refusal(&PutFailure::Other("502 Bad Gateway".into())), "502 Bad Gateway");
}

#[test]
fn an_edited_due_carries_the_calendars_zone_and_no_due_carries_none() {
    assert_eq!(edited_due_tz(true, "Europe/Sofia"), Some("Europe/Sofia".to_string()));
    assert_eq!(edited_due_tz(false, "Europe/Sofia"), None);
}

#[test]
fn a_created_task_is_stored_open_with_its_title_and_resource() {
    let t = created_task(3, "u-1", Some("\"1\"".into()), Some("/cal/u-1.ics".into()), "Water the plants",
        Some((1_789_000_000_000, "Europe/Sofia".into())), true, "BEGIN:VTODO", 42);
    assert_eq!(t.id, 0);
    assert_eq!(t.calendar_id, 3);
    assert_eq!(t.uid, "u-1");
    assert_eq!(t.etag.as_deref(), Some("\"1\""));
    assert_eq!(t.caldav_href.as_deref(), Some("/cal/u-1.ics"));
    assert_eq!(t.summary.as_deref(), Some("Water the plants"));
    assert_eq!(t.description, None);
    assert_eq!(t.due_utc, Some(1_789_000_000_000));
    assert_eq!(t.due_tz.as_deref(), Some("Europe/Sofia"));
    assert!(t.due_all_day);
    assert_eq!(t.status, "needs-action");
    assert_eq!(t.completed_utc, None);
    assert_eq!(t.priority, 0);
    assert_eq!(t.updated_at, 42);
    assert_eq!(t.raw_ics.as_deref(), Some("BEGIN:VTODO"));

    let timed = created_task(3, "u-3", None, None, "Call the bank", Some((1_789_000_000_000, "Europe/Sofia".into())), false, "BEGIN:VTODO", 42);
    assert!(!timed.due_all_day);
    assert_eq!(timed.due_utc, Some(1_789_000_000_000));

    let undated = created_task(3, "u-2", None, None, "Someday", None, true, "BEGIN:VTODO", 42);
    assert_eq!(undated.due_utc, None);
    assert_eq!(undated.due_tz, None);
    assert!(!undated.due_all_day);
    assert_eq!(undated.caldav_href, None);
}

#[test]
fn a_server_write_puts_first_and_stores_the_row_with_the_new_etag() {
    let home = TaskHome::Server("https://dav.example/cal/".into());
    let href = Some("/cal/x.ics".to_string());
    let (stage, action) = write_step(&home, &href, TASK_HAS_NO_HREF, WriteStage::Start, &WriteEvent::Begin);
    assert_eq!(stage, WriteStage::Sent);
    assert_eq!(action, WriteAction::Put("/cal/x.ics".into()));
    let (stage, action) = write_step(&home, &href, TASK_HAS_NO_HREF, stage, &WriteEvent::PutTaken(Some("\"2\"".into())));
    assert_eq!(stage, WriteStage::Storing);
    assert_eq!(action, WriteAction::StoreRow(Some("\"2\"".into())));
    let (stage, action) = write_step(&home, &href, TASK_HAS_NO_HREF, stage, &WriteEvent::RowStored);
    assert_eq!(stage, WriteStage::Done);
    assert_eq!(action, WriteAction::Nothing);
}

#[test]
fn a_refused_put_stores_nothing_and_says_why() {
    let home = TaskHome::Server("https://dav.example/cal/".into());
    let href = Some("/cal/x.ics".to_string());
    let (stage, action) = write_step(&home, &href, TASK_GONE, WriteStage::Sent,
        &WriteEvent::PutRefused(PutFailure::PreconditionFailed));
    assert_eq!(stage, WriteStage::Refused);
    assert_eq!(action, WriteAction::Refuse(TASK_CHANGED_ON_SERVER.into()));
    let (stage, action) = write_step(&home, &None, TASK_GONE, WriteStage::Start, &WriteEvent::Begin);
    assert_eq!(stage, WriteStage::Refused);
    assert_eq!(action, WriteAction::Refuse(TASK_GONE.into()));
    let (stage, action) = write_step(&home, &href, TASK_GONE, WriteStage::Refused, &WriteEvent::RowStored);
    assert_eq!(stage, WriteStage::Refused);
    assert_eq!(action, WriteAction::Nothing);
}

#[test]
fn on_this_device_the_row_is_stored_at_once_without_an_etag() {
    let (stage, action) = write_step(&TaskHome::Device, &None, TASK_HAS_NO_HREF, WriteStage::Start, &WriteEvent::Begin);
    assert_eq!(stage, WriteStage::Storing);
    assert_eq!(action, WriteAction::StoreRow(None));
}

#[test]
fn an_all_day_due_is_read_in_the_zone_it_is_given() {
    let ms: i64 = "2026-09-10T19:00:00Z".parse::<jiff::Timestamp>().unwrap().as_millisecond();
    let kolkata = jiff::tz::TimeZone::get("Asia/Kolkata").unwrap();
    assert_eq!(due_for_in(Some(ms), true, &kolkata).unwrap(), Some(TodoDue::Date(jiff::civil::date(2026, 9, 11))));
    assert_eq!(due_for_in(Some(ms), true, &jiff::tz::TimeZone::UTC).unwrap(), Some(TodoDue::Date(jiff::civil::date(2026, 9, 10))));
    assert_eq!(due_for_in(Some(ms), false, &kolkata).unwrap(), Some(TodoDue::At(jiff::Timestamp::from_millisecond(ms).unwrap())));
    assert_eq!(due_for_in(None, true, &kolkata).unwrap(), None);
    assert!(due_for_in(Some(i64::MAX), true, &kolkata).is_err());
}

#[test]
fn a_new_tasks_due_is_a_day_or_a_time_in_the_calendars_zone() {
    let ms: i64 = "2026-09-10T19:00:00Z".parse::<jiff::Timestamp>().unwrap().as_millisecond();
    let kolkata = jiff::tz::TimeZone::get("Asia/Kolkata").unwrap();
    assert_eq!(new_due_time_in(Some(ms), true, &kolkata, "Asia/Kolkata"), Some(IcsTime::Date(jiff::civil::date(2026, 9, 11))));
    assert_eq!(
        new_due_time_in(Some(ms), false, &kolkata, "Asia/Kolkata"),
        Some(IcsTime::Zoned { dt: jiff::civil::date(2026, 9, 11).at(0, 30, 0, 0), tzid: "Asia/Kolkata".into() })
    );
    assert_eq!(new_due_time_in(None, true, &kolkata, "Asia/Kolkata"), None);
    assert_eq!(new_due_time_in(Some(i64::MAX), true, &kolkata, "Asia/Kolkata"), None);
    assert_eq!(new_due_time(Some(ms), true, "UTC"), Some(IcsTime::Date(jiff::civil::date(2026, 9, 10))));
    assert_eq!(
        new_due_time(Some(ms), false, "Mars/Olympus"),
        Some(IcsTime::Zoned { dt: jiff::civil::date(2026, 9, 10).at(19, 0, 0, 0), tzid: "Mars/Olympus".into() })
    );
}
