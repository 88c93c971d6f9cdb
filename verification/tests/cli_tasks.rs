use omacal::cli_tasks::{due_at, edit_due_plan, edit_fields, parse, resolve_edit_due, resolve_list, ListRef, TaskCmd};
use omacal::tasks::{StoredTask, TaskListVm};

fn argv(s: &str) -> Vec<String> {
    s.split_whitespace().map(String::from).collect()
}

fn p(s: &str) -> Result<TaskCmd, String> {
    let owned = argv(s);
    let refs: Vec<&String> = owned.iter().collect();
    parse(&refs).expect("a verb")
}

#[test]
fn the_verbs_parse_and_the_mistakes_are_named() {
    assert_eq!(
        p("add Renew --due 2026-09-11 --at 18:00"),
        Ok(TaskCmd::Add {
            summary: "Renew".into(),
            list: None,
            due: Some("2026-09-11".into()),
            at: Some("18:00".into()),
        })
    );
    assert_eq!(p("done 41"), Ok(TaskCmd::Complete { id: 41, done: true }));
    assert_eq!(p("reopen 41"), Ok(TaskCmd::Complete { id: 41, done: false }));

    // `none` clears; a value sets; an absent flag leaves alone.
    assert_eq!(
        p("edit 41 --due none --notes hello"),
        Ok(TaskCmd::Edit {
            id: 41,
            title: None,
            due: Some(None),
            at: None,
            notes: Some(Some("hello".into())),
        })
    );

    assert!(p("add").is_err(), "a title is not optional");
    assert!(p("done").is_err(), "an id is not optional");
    assert!(p("edit 41").is_err(), "an edit that changes nothing is a usage error");
    assert!(p("wobble").unwrap_err().contains("add|done|reopen|edit"));
    // Flags are not verbs: `tasks --all --json` is the read.
    let flags = argv("--all --json");
    let refs: Vec<&String> = flags.iter().collect();
    assert!(parse(&refs).is_none(), "no verb means the read");
    // A number is a list id, and anything else a list's name.
    assert!(matches!(p("add Thing --list 9"), Ok(TaskCmd::Add { list: Some(ListRef::Id(9)), .. })));
    assert!(matches!(p("add Thing --list nine"), Ok(TaskCmd::Add { list: Some(ListRef::Name(ref n)), .. }) if n == "nine"));
}

/// A day alone is a whole day; a day and a time is an instant; a time
/// with no day is refused rather than assumed onto today.
#[test]
fn a_due_date_needs_its_day() {
    let tz = jiff::tz::TimeZone::get("Asia/Kolkata").unwrap();
    let (ms, all_day) = due_at(Some("2026-09-11"), None, &tz).unwrap();
    assert!(all_day);
    // Midnight in Kolkata, not in UTC.
    assert_eq!(ms, Some("2026-09-10T18:30:00Z".parse::<jiff::Timestamp>().unwrap().as_millisecond()));

    let (ms, all_day) = due_at(Some("2026-09-11"), Some("18:00"), &tz).unwrap();
    assert!(!all_day);
    assert_eq!(ms, Some("2026-09-11T12:30:00Z".parse::<jiff::Timestamp>().unwrap().as_millisecond()));

    assert_eq!(due_at(None, None, &tz).unwrap(), (None, true));
    assert!(due_at(None, Some("18:00"), &tz).unwrap_err().contains("--at needs --due"));
    assert!(due_at(Some("11/09/2026"), None, &tz).unwrap_err().contains("YYYY-MM-DD"));
    assert!(due_at(Some("2026-09-11"), Some("six"), &tz).unwrap_err().contains("HH:MM"));
}

/// `--list Groceries`: exactly one list by that name, in any case, or a
/// refusal that says where the names are — never the closest match.
#[test]
fn a_list_is_named_exactly_once_or_refused() {
    let list = |id: i64, name: &str| TaskListVm { calendar_id: id, name: name.into(), color: None, local: true };
    let lists = [list(3, "Groceries"), list(4, "Work"), list(5, "work")];
    let name = |n: &str| Some(ListRef::Name(n.into()));
    assert_eq!(resolve_list(&name("groceries"), &lists), Ok(Some(3)));
    assert_eq!(resolve_list(&name(" Groceries "), &lists), Ok(Some(3)));
    assert!(resolve_list(&name("Grocer"), &lists).unwrap_err().contains("no task list is called “Grocer”"));
    assert!(resolve_list(&name("WORK"), &lists).unwrap_err().contains("more than one list"));
    assert_eq!(resolve_list(&Some(ListRef::Id(42)), &lists), Ok(Some(42)), "an id passes; the app judges it");
    assert_eq!(resolve_list(&None, &lists), Ok(None));
}

// ---------------------------------------------------------------- more

#[test]
fn list_names_fold_beyond_ascii() {
    let lists = [TaskListVm { calendar_id: 7, name: "Покупки".into(), color: None, local: false }];
    assert_eq!(resolve_list(&Some(ListRef::Name("ПОКУПКИ".into())), &lists), Ok(Some(7)));
}

#[test]
fn the_refusals_name_what_was_asked() {
    let lists = [TaskListVm { calendar_id: 1, name: "A".into(), color: None, local: true }];
    assert_eq!(
        resolve_list(&Some(ListRef::Name(" B ".into())), &lists),
        Err("no task list is called “ B ” — `omacal tasks lists` names them".to_string())
    );
    let twice = [
        TaskListVm { calendar_id: 1, name: "A".into(), color: None, local: true },
        TaskListVm { calendar_id: 2, name: "a".into(), color: None, local: true },
    ];
    assert_eq!(
        resolve_list(&Some(ListRef::Name("A".into())), &twice),
        Err("more than one list is called “A” — use its id from `omacal tasks lists`".to_string())
    );
}

#[test]
fn usage_errors_say_what_to_type() {
    assert_eq!(
        p("add"),
        Err("usage: omacal tasks add \"a title\" [--list ID|NAME] [--due YYYY-MM-DD] [--at HH:MM]".to_string())
    );
    assert_eq!(p("done x"), Err("usage: omacal tasks done ID — `omacal tasks` prints ids".to_string()));
    assert_eq!(p("reopen"), Err("usage: omacal tasks reopen ID — `omacal tasks` prints ids".to_string()));
    assert_eq!(p("wobble"), Err("usage: omacal tasks [add|done|reopen|edit] — not \"wobble\"".to_string()));
    assert_eq!(
        p("edit 41"),
        Err("omacal tasks edit ID needs something to change: --title, --due, --at or --notes (--due none clears the date)".to_string())
    );
    assert_eq!(p("add Thing --due"), Err("--due needs a value".to_string()));
    assert_eq!(p("add Thing --list --due x"), Err("--list needs a value".to_string()));
}

#[test]
fn ids_read_as_rust_reads_an_i64() {
    assert_eq!(p("done +41"), Ok(TaskCmd::Complete { id: 41, done: true }));
    assert_eq!(p("done -3"), Ok(TaskCmd::Complete { id: -3, done: true }));
    assert_eq!(p("done 9223372036854775807"), Ok(TaskCmd::Complete { id: i64::MAX, done: true }));
    assert_eq!(p("done -9223372036854775808"), Ok(TaskCmd::Complete { id: i64::MIN, done: true }));
    assert!(p("done 9223372036854775808").is_err());
    assert!(p("done 99999999999999999999999999999999999999999").is_err());
    assert!(p("done 12a").is_err());
    assert!(p("done -").is_err());
    assert!(matches!(p("add Thing --list -7"), Ok(TaskCmd::Add { list: Some(ListRef::Id(-7)), .. })));
}

#[test]
fn the_verb_is_the_first_word_that_is_not_a_flag() {
    assert_eq!(p("--json done 5"), Ok(TaskCmd::Complete { id: 5, done: true }));
    assert_eq!(
        p("edit 5 --title New --at NONE"),
        Ok(TaskCmd::Edit { id: 5, title: Some("New".into()), due: None, at: Some(None), notes: None })
    );
}

#[test]
fn an_edit_plan_fills_the_half_it_was_not_given() {
    let current = Some(("2026-09-11".to_string(), "18:00".to_string()));
    // A new day keeps the hour the task already had.
    assert_eq!(
        edit_due_plan(&Some(Some("2026-09-12".into())), &None, &current, false),
        Ok(Some(("2026-09-12".to_string(), Some("18:00".to_string()))))
    );
    // `--at none` keeps the day and drops the hour.
    assert_eq!(edit_due_plan(&None, &Some(None), &current, false), Ok(Some(("2026-09-11".to_string(), None))));
    // `--due none` clears both.
    assert_eq!(edit_due_plan(&Some(None), &Some(Some("09:15".into())), &current, false), Ok(None));
    // An all-day task keeps having no hour, until given one.
    assert_eq!(edit_due_plan(&None, &None, &current, true), Ok(Some(("2026-09-11".to_string(), None))));
    assert_eq!(
        edit_due_plan(&None, &Some(Some("09:15".into())), &current, true),
        Ok(Some(("2026-09-11".to_string(), Some("09:15".to_string()))))
    );
    // A task with no date, given only a time, is refused.
    assert_eq!(
        edit_due_plan(&None, &Some(Some("09:15".into())), &None, true),
        Err("--at needs --due: a time with no day is not a due date".to_string())
    );
    assert_eq!(edit_due_plan(&None, &None, &None, true), Ok(None));
}

#[test]
fn due_at_names_the_word_it_refused() {
    let tz = jiff::tz::TimeZone::UTC;
    assert_eq!(due_at(Some("tomorrow"), None, &tz), Err("--due takes YYYY-MM-DD, not \"tomorrow\"".to_string()));
    assert_eq!(due_at(Some("2026-09-11"), Some("six"), &tz), Err("--at takes HH:MM, not \"six\"".to_string()));
    assert_eq!(due_at(Some("2026-09-11"), None, &tz), Ok((Some(1_789_084_800_000), true)));
}

#[test]
fn an_edit_names_every_field_from_the_task_when_it_did_not() {
    let task = StoredTask {
        id: 1, calendar_id: 1, uid: "u".into(), etag: None, caldav_href: None,
        summary: Some("t".into()), description: Some("old note".into()), due_utc: None, due_tz: None,
        due_all_day: true, status: "needs-action".into(), completed_utc: None,
        priority: 0, raw_ics: None, updated_at: 0,
    };
    assert_eq!(edit_fields(&task, &None, &None), Ok(("t".to_string(), Some("old note".to_string()))));
    assert_eq!(
        edit_fields(&task, &Some("New".into()), &Some(None)),
        Ok(("New".to_string(), None))
    );
    assert_eq!(edit_fields(&task, &Some("  ".into()), &None), Err("a task needs a title".to_string()));
    let untitled = StoredTask { summary: None, ..task };
    assert_eq!(edit_fields(&untitled, &None, &None), Err("a task needs a title".to_string()));
}

fn stored(due_utc: Option<i64>, all_day: bool) -> StoredTask {
    StoredTask {
        id: 1, calendar_id: 1, uid: "u".into(), etag: None, caldav_href: None,
        summary: Some("t".into()), description: None, due_utc, due_tz: None,
        due_all_day: all_day, status: "needs-action".into(), completed_utc: None,
        priority: 0, raw_ics: None, updated_at: 0,
    }
}

/// The audit's zone drift, in the CLI's edit: an all-day task on a Sofia
/// list read from New York keeps its Thursday when only the title changes.
#[test]
fn an_edit_keeps_an_all_day_date_from_another_zone() {
    let ny = jiff::tz::TimeZone::get("America/New_York").unwrap();
    let mut sofia_thursday = stored(Some("2026-09-16T21:00:00Z".parse::<jiff::Timestamp>().unwrap().as_millisecond()), true);
    sofia_thursday.due_tz = Some("Europe/Sofia".into());
    let (ms, all_day) = resolve_edit_due(&sofia_thursday, &None, &None, &ny).unwrap();
    assert!(all_day);
    let thursday_ny = "2026-09-17T04:00:00Z".parse::<jiff::Timestamp>().unwrap().as_millisecond();
    assert_eq!(ms, Some(thursday_ny), "Thursday, sent as the CLI's own midnight for the app to date");
}

/// An edit naming one half of the date takes the other from the task,
/// and the two clears mean different things.
#[test]
fn an_edit_fills_the_half_it_was_not_given() {
    let tz = jiff::tz::TimeZone::get("Asia/Kolkata").unwrap();
    let at_six = "2026-09-11T12:30:00Z".parse::<jiff::Timestamp>().unwrap().as_millisecond();
    let timed = stored(Some(at_six), false);

    let (ms, all_day) = resolve_edit_due(&timed, &Some(Some("2026-09-12".into())), &None, &tz).unwrap();
    assert!(!all_day);
    assert_eq!(ms, Some("2026-09-12T12:30:00Z".parse::<jiff::Timestamp>().unwrap().as_millisecond()));

    let (_, all_day) = resolve_edit_due(&timed, &None, &Some(None), &tz).unwrap();
    assert!(all_day);

    assert_eq!(resolve_edit_due(&timed, &Some(None), &None, &tz).unwrap(), (None, true));

    let day = stored(Some("2026-09-10T18:30:00Z".parse::<jiff::Timestamp>().unwrap().as_millisecond()), true);
    let (ms, all_day) = resolve_edit_due(&day, &None, &Some(Some("09:15".into())), &tz).unwrap();
    assert!(!all_day);
    assert_eq!(ms, Some("2026-09-11T03:45:00Z".parse::<jiff::Timestamp>().unwrap().as_millisecond()));

    let none = stored(None, true);
    assert!(resolve_edit_due(&none, &None, &Some(Some("09:15".into())), &tz)
        .unwrap_err()
        .contains("--at needs --due"));
}

#[test]
fn an_unknown_list_zone_reads_the_day_in_utc() {
    let tz = jiff::tz::TimeZone::UTC;
    let mut t = stored(Some("2026-09-10T19:00:00Z".parse::<jiff::Timestamp>().unwrap().as_millisecond()), true);
    t.due_tz = Some("Mars/Olympus".into());
    let (ms, all_day) = resolve_edit_due(&t, &None, &None, &tz).unwrap();
    assert!(all_day);
    assert_eq!(ms, Some("2026-09-10T00:00:00Z".parse::<jiff::Timestamp>().unwrap().as_millisecond()));
}
