//! The task pane's model: stored tasks, the rows the pane draws, and the
//! rules that turn one into the other.
//!
//! Writes follow the rule the app lives by — the server first, the local
//! row after — and what is decided before either (a title that is there, a
//! note that says something) is decided here.

use vstd::prelude::*;
use crate::text::{chars_eq, chars_of, push_all, slice_chars, string_of, trim, trim_exec};
use crate::civil::{datetime_of, zoned_datetime, day_of, instant_at, millis_in_range, timestamp_of, utc, zone_named, zoned, zoned_at, zoned_day};

verus! {

/// One VTODO as the store keeps it.
#[derive(Debug, Clone, PartialEq)]
pub struct StoredTask {
    pub id: i64,
    pub calendar_id: i64,
    pub uid: String,
    pub etag: Option<String>,
    pub caldav_href: Option<String>,
    pub summary: Option<String>,
    pub description: Option<String>,
    pub due_utc: Option<i64>,
    pub due_tz: Option<String>,
    pub due_all_day: bool,
    /// `needs-action` | `in-process` | `completed` | `cancelled`.
    pub status: String,
    pub completed_utc: Option<i64>,
    /// ICS PRIORITY: 0 = undefined, 1 highest .. 9 lowest.
    pub priority: i64,
    pub updated_at: i64,
    pub raw_ics: Option<String>,
}

/// A task joined with what the UI draws it with — its list's name and colour.
#[derive(Debug, Clone, PartialEq)]
pub struct TaskRow {
    pub task: StoredTask,
    pub calendar_summary: String,
    pub color_hex: Option<String>,
    /// The list's access role — `reader` lists show their tasks but refuse
    /// completion toggles.
    pub access_role: String,
}

/// One task as the pane draws it.
#[derive(Debug, Clone, PartialEq)]
pub struct TaskVm {
    pub id: i64,
    pub calendar_id: i64,
    pub summary: String,
    pub notes: Option<String>,
    pub due_ms: Option<i64>,
    pub due_all_day: bool,
    pub completed: bool,
    pub calendar: String,
    pub color: Option<String>,
    pub priority: i64,
    /// False on read-only lists and in demo mode; the checkbox renders
    /// disabled rather than pretending.
    pub can_write: bool,
}

/// The task-capable, writable lists the quick-add can land on.
#[derive(Debug, Clone, PartialEq)]
pub struct TaskListVm {
    pub calendar_id: i64,
    pub name: String,
    pub color: Option<String>,
    /// Whether the list lives on this device rather than on a server.
    pub local: bool,
}

pub open spec fn opt_text(o: Option<String>) -> Option<Seq<char>> {
    match o {
        Some(s) => Some(s@),
        None => None,
    }
}

/// How far back completed tasks stay visible: a week.
pub const DONE_WINDOW_MS: i64 = 604800000;

/// What the on-this-device list is called.
pub const LOCAL_TASK_LIST_NAME: &'static str = "Tasks on this device";

pub const TASK_NEEDS_A_TITLE: &'static str = "a task needs a title";

pub const TASK_GONE: &'static str = "that task is no longer here";

pub const TASK_CHANGED_ON_SERVER: &'static str =
    "That task changed on the server since it was loaded — sync and try again";

/// The earliest completion the pane still shows at `now_ms`.
pub fn done_since(now_ms: i64) -> (r: i64)
    requires
        now_ms >= i64::MIN + DONE_WINDOW_MS,
    ensures
        r == now_ms - DONE_WINDOW_MS,
{
    now_ms - DONE_WINDOW_MS
}

fn clone_opt(o: &Option<String>) -> (r: Option<String>)
    ensures
        opt_text(r) == opt_text(*o),
{
    match o {
        Some(s) => Some(s.clone()),
        None => None,
    }
}

fn is_word(s: &String, word: &str) -> (r: bool)
    ensures
        r == (s@ == word@),
{
    chars_eq(&chars_of(s.as_str()), &chars_of(word))
}

/// A stored row as the pane draws it: an untitled task says so, a task is
/// completed when its status is `completed`, and it can be written only
/// outside demo mode and on a list that is not read-only.
pub fn to_vm(row: &TaskRow, demo: bool) -> (vm: TaskVm)
    ensures
        vm.id == row.task.id,
        vm.calendar_id == row.task.calendar_id,
        vm.summary@ == match row.task.summary {
            Some(s) => s@,
            None => "(untitled)"@,
        },
        opt_text(vm.notes) == opt_text(row.task.description),
        vm.due_ms == row.task.due_utc,
        vm.due_all_day == row.task.due_all_day,
        vm.completed == (row.task.status@ == "completed"@),
        vm.calendar@ == row.calendar_summary@,
        opt_text(vm.color) == opt_text(row.color_hex),
        vm.priority == row.task.priority,
        vm.can_write == (!demo && row.access_role@ != "reader"@),
{
    let summary = match &row.task.summary {
        Some(s) => s.clone(),
        None => string_of(&chars_of("(untitled)")),
    };
    TaskVm {
        id: row.task.id,
        calendar_id: row.task.calendar_id,
        summary,
        notes: clone_opt(&row.task.description),
        due_ms: row.task.due_utc,
        due_all_day: row.task.due_all_day,
        completed: is_word(&row.task.status, "completed"),
        calendar: row.calendar_summary.clone(),
        color: clone_opt(&row.color_hex),
        priority: row.task.priority,
        can_write: !demo && !is_word(&row.access_role, "reader"),
    }
}

/// A task's title as it is written: trimmed, and refused when nothing is
/// left.
pub fn task_title(summary: &str) -> (r: Result<String, String>)
    ensures
        trim(summary@).len() > 0 ==> (r matches Ok(t) && t@ == trim(summary@)),
        trim(summary@).len() == 0 ==> (r matches Err(e) && e@ == TASK_NEEDS_A_TITLE@),
{
    let t = trim_exec(&chars_of(summary));
    if t.len() == 0 {
        Err(string_of(&chars_of(TASK_NEEDS_A_TITLE)))
    } else {
        Ok(string_of(&t))
    }
}

/// A task's note as it is written: trimmed, and none at all when nothing is
/// left.
pub fn task_notes(notes: Option<&str>) -> (r: Option<String>)
    ensures
        match notes {
            Some(n) => if trim(n@).len() > 0 {
                (r matches Some(t) && t@ == trim(n@))
            } else {
                r is None
            },
            None => r is None,
        },
{
    match notes {
        Some(n) => {
            let t = trim_exec(&chars_of(n));
            if t.len() == 0 {
                None
            } else {
                Some(string_of(&t))
            }
        },
        None => None,
    }
}

/// A due date as iCalendar spells it: an instant, or a whole day.
#[derive(Debug, PartialEq)]
pub enum TodoDue {
    At(jiff::Timestamp),
    Date(jiff::civil::Date),
}

/// What [`due_for_in`] answers for the wire's pair with the calendar's zone
/// `tz`: no due is none; a count outside the range of instants is refused;
/// a timed due is the instant the count names; an all-day due is that
/// instant's date in `tz`.
pub open spec fn due_in_zone(due_ms: Option<i64>, all_day: bool, tz: jiff::tz::TimeZone, r: Result<Option<TodoDue>, String>) -> bool {
    match due_ms {
        None => r == Ok::<Option<TodoDue>, String>(None),
        Some(ms) => if !millis_in_range(ms as int) {
            r is Err
        } else if !all_day {
            r == Ok::<Option<TodoDue>, String>(Some(TodoDue::At(instant_at(ms as int))))
        } else {
            r == Ok::<Option<TodoDue>, String>(Some(TodoDue::Date(day_of(zoned_at(instant_at(ms as int), tz)))))
        },
    }
}

/// The wire's `(ms, all_day)` pair as iCalendar spells it, with the
/// calendar's zone already in hand. An all-day due takes its date in that
/// zone, not in UTC: in Kolkata a task due at 00:30 local is 19:00 UTC the
/// day before.
pub fn due_for_in(due_ms: Option<i64>, all_day: bool, tz: &jiff::tz::TimeZone) -> (r: Result<Option<TodoDue>, String>)
    ensures
        due_in_zone(due_ms, all_day, *tz, r),
{
    let ms = match due_ms {
        Some(ms) => ms,
        None => return Ok(None),
    };
    let ts = match timestamp_of(ms) {
        Ok(ts) => ts,
        Err(e) => return Err(e),
    };
    if !all_day {
        return Ok(Some(TodoDue::At(ts)));
    }
    Ok(Some(TodoDue::Date(zoned_day(&zoned(&ts, tz)))))
}

/// The wire's `(ms, all_day)` pair as iCalendar spells it, for a calendar
/// whose zone is named `cal_tz`. A zone the machine does not know falls
/// back to UTC rather than refusing. Which zone the machine's database
/// gives for the name is the machine's; [`due_for_in`] says what follows
/// for each.
pub fn due_for(due_ms: Option<i64>, all_day: bool, cal_tz: &str) -> (r: Result<Option<TodoDue>, String>)
    ensures
        !all_day ==> forall|tz: jiff::tz::TimeZone| #[trigger] due_in_zone(due_ms, all_day, tz, r),
        all_day ==> exists|tz: jiff::tz::TimeZone| #[trigger] due_in_zone(due_ms, all_day, tz, r),
{
    if all_day && due_ms.is_some() {
        let tz = match zone_named(cal_tz) {
            Some(tz) => tz,
            None => utc(),
        };
        let r = due_for_in(due_ms, all_day, &tz);
        assert(due_in_zone(due_ms, all_day, tz, r));
        r
    } else {
        let tz = utc();
        let r = due_for_in(due_ms, all_day, &tz);
        assert(due_in_zone(due_ms, all_day, tz, r));
        r
    }
}

/// When a new task is due, as its iCalendar text writes it: a whole day,
/// or a date and time in a named zone.
#[derive(Debug, PartialEq)]
pub enum IcsTime {
    Date(jiff::civil::Date),
    Zoned { dt: jiff::civil::DateTime, tzid: String },
}

/// What [`new_due_time_in`] answers with the calendar's zone `tz`, named
/// `cal_tz`: no due, or a count outside the range of instants, is none; an
/// all-day due is the instant's date in `tz`; any other is its date and
/// time in `tz`, tagged with the zone's name.
pub open spec fn new_due_in_zone(due_ms: Option<i64>, all_day: bool, tz: jiff::tz::TimeZone, cal_tz: Seq<char>, r: Option<IcsTime>) -> bool {
    match due_ms {
        None => r is None,
        Some(ms) => if !millis_in_range(ms as int) {
            r is None
        } else if all_day {
            r == Some(IcsTime::Date(day_of(zoned_at(instant_at(ms as int), tz))))
        } else {
            r matches Some(IcsTime::Zoned { dt, tzid })
                && dt == datetime_of(zoned_at(instant_at(ms as int), tz)) && tzid@ == cal_tz
        },
    }
}

/// A new task's due as its iCalendar text writes it, with the calendar's
/// zone in hand. The window's quick-add says dates, not instants — "by
/// Friday", not "by 16:23:07" — and the CLI can say an hour, which then is
/// written in the calendar's zone rather than as a bare UTC instant.
pub fn new_due_time_in(due_ms: Option<i64>, all_day: bool, tz: &jiff::tz::TimeZone, cal_tz: &str) -> (r: Option<IcsTime>)
    ensures
        new_due_in_zone(due_ms, all_day, *tz, cal_tz@, r),
{
    let ms = match due_ms {
        Some(ms) => ms,
        None => return None,
    };
    let ts = match timestamp_of(ms) {
        Ok(ts) => ts,
        Err(_) => return None,
    };
    let z = zoned(&ts, tz);
    if all_day {
        Some(IcsTime::Date(zoned_day(&z)))
    } else {
        Some(IcsTime::Zoned { dt: zoned_datetime(&z), tzid: string_of(&chars_of(cal_tz)) })
    }
}

/// A new task's due for a calendar whose zone is named `cal_tz`; a zone
/// the machine does not know falls back to UTC. Which zone the machine's
/// database gives for the name is the machine's; [`new_due_time_in`] says
/// what follows for each.
pub fn new_due_time(due_ms: Option<i64>, all_day: bool, cal_tz: &str) -> (r: Option<IcsTime>)
    ensures
        exists|tz: jiff::tz::TimeZone| #[trigger] new_due_in_zone(due_ms, all_day, tz, cal_tz@, r),
{
    let tz = match zone_named(cal_tz) {
        Some(tz) => tz,
        None => utc(),
    };
    let r = new_due_time_in(due_ms, all_day, &tz, cal_tz);
    assert(new_due_in_zone(due_ms, all_day, tz, cal_tz@, r));
    r
}

/// The collection URL with every trailing `/` gone (`trim_end_matches('/')`).
pub open spec fn without_trailing_slashes(s: Seq<char>) -> Seq<char>
    decreases s.len(),
{
    if s.len() > 0 && s.last() == '/' {
        without_trailing_slashes(s.drop_last())
    } else {
        s
    }
}

/// Where a new task's resource goes: `{collection}/{uid}.ics`, with the
/// collection's trailing slashes dropped so the path has exactly one.
pub fn task_href(collection_url: &str, uid: &str) -> (r: String)
    ensures
        r@ == without_trailing_slashes(collection_url@) + "/"@ + uid@ + ".ics"@,
{
    let url = chars_of(collection_url);
    let mut end: usize = url.len();
    assert(url@.subrange(0, end as int) =~= url@);
    while end > 0 && url[end - 1] == '/'
        invariant
            end <= url.len(),
            without_trailing_slashes(url@) == without_trailing_slashes(url@.subrange(0, end as int)),
        decreases end,
    {
        assert(url@.subrange(0, end as int).drop_last() =~= url@.subrange(0, end - 1));
        end -= 1;
    }
    let mut out = slice_chars(&url, 0, end);
    push_all(&mut out, &chars_of("/"));
    push_all(&mut out, &chars_of(uid));
    push_all(&mut out, &chars_of(".ics"));
    string_of(&out)
}

/// The status a completion toggle writes, and the completion stamp:
/// `completed` at `now_ms`, or `needs-action` with none.
pub fn completion_change(on: bool, now_ms: i64) -> (r: (String, Option<i64>))
    ensures
        on ==> r.0@ == "completed"@ && r.1 == Some(now_ms),
        !on ==> r.0@ == "needs-action"@ && r.1 is None,
{
    if on {
        (string_of(&chars_of("completed")), Some(now_ms))
    } else {
        (string_of(&chars_of("needs-action")), None)
    }
}

/// Where a task list lives: a CalDAV collection, by its URL, or this
/// machine. Every write asks this first, and the only difference it makes
/// is whether a `PUT` happens.
#[derive(Debug, Clone, PartialEq)]
pub enum TaskHome {
    Server(String),
    Device,
}

pub const TASK_HAS_NO_RESOURCE: &'static str = "task has no resource";

pub const TASK_HAS_NO_HREF: &'static str = "task has no href";

/// The iCalendar text a stored task carries, which every rewrite starts
/// from; refused with `missing` when the row has none.
pub fn task_resource(task: &StoredTask, missing: &str) -> (r: Result<String, String>)
    ensures
        task.raw_ics matches Some(raw) ==> (r matches Ok(t) && t@ == raw@),
        task.raw_ics is None ==> (r matches Err(e) && e@ == missing@),
{
    match &task.raw_ics {
        Some(raw) => Ok(raw.clone()),
        None => Err(string_of(&chars_of(missing))),
    }
}

/// Where a rewritten task is sent: nowhere on this device; on a server, to
/// the task's own resource, refused with `missing` when the row names none.
pub fn put_href(home: &TaskHome, href: &Option<String>, missing: &str) -> (r: Result<Option<String>, String>)
    ensures
        home is Device ==> (r matches Ok(o) && o is None),
        home is Server && href.is_none() ==> (r matches Err(e) && e@ == missing@),
        home is Server && href.is_some() ==> (r matches Ok(o) && opt_text(o) == opt_text(*href)),
{
    match home {
        TaskHome::Device => Ok(None),
        TaskHome::Server(_) => match href {
            Some(h) => Ok(Some(h.clone())),
            None => Err(string_of(&chars_of(missing))),
        },
    }
}

/// Where a new task is sent: nowhere on this device, so the row carries no
/// href; on a server, to `{collection}/{uid}.ics`.
pub fn create_href(home: &TaskHome, uid: &str) -> (r: Option<String>)
    ensures
        home is Device ==> r is None,
        home matches TaskHome::Server(url) ==> (r matches Some(h)
            && h@ == without_trailing_slashes(url@) + "/"@ + uid@ + ".ics"@),
{
    match home {
        TaskHome::Device => None,
        TaskHome::Server(url) => Some(task_href(url.as_str(), uid)),
    }
}

/// How a server answered a `PUT` it did not take.
#[derive(Debug, Clone, PartialEq)]
pub enum PutFailure {
    /// The etag no longer matched: someone else wrote the task since.
    PreconditionFailed,
    /// Anything else, as the client described it.
    Other(String),
}

/// What the user is told of a refused `PUT`: a stale etag says to sync and
/// try again; anything else is passed on as it came.
pub fn put_refusal(f: &PutFailure) -> (r: String)
    ensures
        f is PreconditionFailed ==> r@ == TASK_CHANGED_ON_SERVER@,
        f matches PutFailure::Other(m) ==> r@ == m@,
{
    match f {
        PutFailure::PreconditionFailed => string_of(&chars_of(TASK_CHANGED_ON_SERVER)),
        PutFailure::Other(m) => m.clone(),
    }
}

/// The zone an edited task's due is stored with: the calendar's when the
/// task has a due, none when it has not.
pub fn edited_due_tz(has_due: bool, cal_tz: &str) -> (r: Option<String>)
    ensures
        has_due ==> (r matches Some(z) && z@ == cal_tz@),
        !has_due ==> r is None,
{
    if has_due {
        Some(string_of(&chars_of(cal_tz)))
    } else {
        None
    }
}

/// The row a newly created task is stored as: open, unprioritised, with no
/// note, its title and resource as written. `due` is the resolved instant
/// and its zone; whether it is a whole day is the creator's to say — the
/// window's quick-add says dates, the CLI can say an hour — and a task with
/// no due is not an all-day one.
pub fn created_task(
    calendar_id: i64,
    uid: &str,
    etag: Option<String>,
    href: Option<String>,
    summary: &str,
    due: Option<(i64, String)>,
    all_day: bool,
    ics: &str,
    now_ms: i64,
) -> (t: StoredTask)
    ensures
        t.id == 0,
        t.calendar_id == calendar_id,
        t.uid@ == uid@,
        opt_text(t.etag) == opt_text(etag),
        opt_text(t.caldav_href) == opt_text(href),
        t.summary matches Some(s) && s@ == summary@,
        t.description is None,
        t.due_utc == (match due { Some(d) => Some(d.0), None => None::<i64> }),
        opt_text(t.due_tz) == (match due { Some(d) => Some(d.1@), None => None::<Seq<char>> }),
        t.due_all_day == (due is Some && all_day),
        t.status@ == "needs-action"@,
        t.completed_utc is None,
        t.priority == 0,
        t.updated_at == now_ms,
        t.raw_ics matches Some(r) && r@ == ics@,
{
    let has_due = due.is_some();
    let (due_utc, due_tz) = match due {
        Some((ms, tz)) => (Some(ms), Some(tz)),
        None => (None, None),
    };
    StoredTask {
        id: 0,
        calendar_id,
        uid: string_of(&chars_of(uid)),
        etag,
        caldav_href: href,
        summary: Some(string_of(&chars_of(summary))),
        description: None,
        due_utc,
        due_tz,
        due_all_day: has_due && all_day,
        status: string_of(&chars_of("needs-action")),
        completed_utc: None,
        priority: 0,
        updated_at: now_ms,
        raw_ics: Some(string_of(&chars_of(ics))),
    }
}


/// Where a task write stands: nothing sent yet, a `PUT` out, the local row
/// being stored, finished, or refused.
#[derive(Debug, Clone, Copy, PartialEq, Eq, Structural)]
pub enum WriteStage {
    Start,
    Sent,
    Storing,
    Done,
    Refused,
}

/// What came back from the last thing a write did.
#[derive(Debug, Clone, PartialEq)]
pub enum WriteEvent {
    /// The iCalendar text is ready.
    Begin,
    /// The server took the `PUT`, with the new etag when it gave one.
    PutTaken(Option<String>),
    /// The server refused the `PUT`.
    PutRefused(PutFailure),
    /// The local row is written.
    RowStored,
}

/// What a task write does next.
#[derive(Debug, Clone, PartialEq)]
pub enum WriteAction {
    /// Send the resource to this href.
    Put(String),
    /// Write the local row, with this etag.
    StoreRow(Option<String>),
    /// Stop and tell the user this.
    Refuse(String),
    /// Nothing more.
    Nothing,
}

/// The shape of a [`WriteEvent`], without what it carries.
#[derive(Debug, Clone, Copy, PartialEq, Eq, Structural)]
pub enum EventKind {
    Begin,
    PutTaken,
    PutRefused,
    RowStored,
}

/// The shape of a [`WriteAction`], without what it carries.
#[derive(Debug, Clone, Copy, PartialEq, Eq, Structural)]
pub enum ActionKind {
    Put,
    StoreRow,
    Refuse,
    Nothing,
}

pub open spec fn event_kind(e: WriteEvent) -> EventKind {
    match e {
        WriteEvent::Begin => EventKind::Begin,
        WriteEvent::PutTaken(_) => EventKind::PutTaken,
        WriteEvent::PutRefused(_) => EventKind::PutRefused,
        WriteEvent::RowStored => EventKind::RowStored,
    }
}

pub open spec fn action_kind(a: WriteAction) -> ActionKind {
    match a {
        WriteAction::Put(_) => ActionKind::Put,
        WriteAction::StoreRow(_) => ActionKind::StoreRow,
        WriteAction::Refuse(_) => ActionKind::Refuse,
        WriteAction::Nothing => ActionKind::Nothing,
    }
}

/// One step of a task write, by shape: on a server list with an href, the
/// `PUT` goes first and the row is stored only once it is taken; on this
/// device the row is stored at once; a server list with no href, or a
/// refused `PUT`, is refused. An event a stage does not wait for changes
/// nothing.
pub open spec fn write_step_spec(server: bool, has_href: bool, stage: WriteStage, ev: EventKind) -> (WriteStage, ActionKind) {
    match (stage, ev) {
        (WriteStage::Start, EventKind::Begin) => if !server {
            (WriteStage::Storing, ActionKind::StoreRow)
        } else if has_href {
            (WriteStage::Sent, ActionKind::Put)
        } else {
            (WriteStage::Refused, ActionKind::Refuse)
        },
        (WriteStage::Sent, EventKind::PutTaken) => (WriteStage::Storing, ActionKind::StoreRow),
        (WriteStage::Sent, EventKind::PutRefused) => (WriteStage::Refused, ActionKind::Refuse),
        (WriteStage::Storing, EventKind::RowStored) => (WriteStage::Done, ActionKind::Nothing),
        _ => (stage, ActionKind::Nothing),
    }
}

/// The decisions of a task write — a completion toggle, an edit or a
/// create — between the app's outside work: the server first, the local
/// row after. `missing` is what a server list's task with no href is
/// refused with. What an action carries: the task's href for a `PUT`; for
/// the row, no etag on this device and the server's after a `PUT`; for a
/// refusal, [`put_refusal`]'s text or `missing`.
pub fn write_step(
    home: &TaskHome,
    href: &Option<String>,
    missing: &str,
    stage: WriteStage,
    event: &WriteEvent,
) -> (r: (WriteStage, WriteAction))
    ensures
        (r.0, action_kind(r.1)) == write_step_spec(home is Server, href.is_some(), stage, event_kind(*event)),
        r.1 matches WriteAction::Put(h) ==> opt_text(Some(h)) == opt_text(*href),
        r.1 matches WriteAction::StoreRow(e) ==> match *event {
            WriteEvent::PutTaken(etag) => opt_text(e) == opt_text(etag),
            _ => e is None,
        },
        r.1 matches WriteAction::Refuse(m) ==> match *event {
            WriteEvent::PutRefused(PutFailure::PreconditionFailed) => m@ == TASK_CHANGED_ON_SERVER@,
            WriteEvent::PutRefused(PutFailure::Other(o)) => m@ == o@,
            _ => m@ == missing@,
        },
{
    match (stage, event) {
        (WriteStage::Start, WriteEvent::Begin) => match put_href(home, href, missing) {
            Ok(Some(h)) => (WriteStage::Sent, WriteAction::Put(h)),
            Ok(None) => (WriteStage::Storing, WriteAction::StoreRow(None)),
            Err(m) => (WriteStage::Refused, WriteAction::Refuse(m)),
        },
        (WriteStage::Sent, WriteEvent::PutTaken(etag)) => (WriteStage::Storing, WriteAction::StoreRow(clone_opt(etag))),
        (WriteStage::Sent, WriteEvent::PutRefused(f)) => (WriteStage::Refused, WriteAction::Refuse(put_refusal(f))),
        (WriteStage::Storing, WriteEvent::RowStored) => (WriteStage::Done, WriteAction::Nothing),
        _ => (stage, WriteAction::Nothing),
    }
}

/// A run of a write from its start: the stage it reaches and the actions it
/// took, one per event.
pub open spec fn write_run(server: bool, has_href: bool, evs: Seq<EventKind>) -> (WriteStage, Seq<ActionKind>)
    decreases evs.len(),
{
    if evs.len() == 0 {
        (WriteStage::Start, Seq::empty())
    } else {
        let before = write_run(server, has_href, evs.drop_last());
        let step = write_step_spec(server, has_href, before.0, evs.last());
        (step.0, before.1.push(step.1))
    }
}

/// Server first, the local row after: on a list that lives on a server, a
/// write stores its row only in answer to the server taking its `PUT`, which
/// it sent before; a write that ends refused, or has not heard back yet,
/// has stored no row.
pub proof fn law_server_first(has_href: bool, evs: Seq<EventKind>)
    ensures
        forall|i: int| 0 <= i < evs.len() && #[trigger] write_run(true, has_href, evs).1[i] == ActionKind::StoreRow
            ==> evs[i] == EventKind::PutTaken && exists|j: int| 0 <= j < i && write_run(true, has_href, evs).1[j] == ActionKind::Put,
        (write_run(true, has_href, evs).0 == WriteStage::Refused || write_run(true, has_href, evs).0 == WriteStage::Sent)
            ==> forall|i: int| 0 <= i < evs.len() ==> #[trigger] write_run(true, has_href, evs).1[i] != ActionKind::StoreRow,
        write_run(true, has_href, evs).0 == WriteStage::Done
            ==> exists|j: int| 0 <= j < evs.len() && evs[j] == EventKind::PutTaken,
{
    lemma_run_shape(true, has_href, evs);
}

/// On this device nothing is sent: a write to a list with no server behind
/// it never asks for a `PUT`.
pub proof fn law_on_device_nothing_is_sent(has_href: bool, evs: Seq<EventKind>)
    ensures
        forall|i: int| 0 <= i < evs.len() ==> #[trigger] write_run(false, has_href, evs).1[i] != ActionKind::Put,
    decreases evs.len(),
{
    if evs.len() > 0 {
        let prev = evs.drop_last();
        law_on_device_nothing_is_sent(has_href, prev);
        lemma_run_shape(false, has_href, prev);
        let before = write_run(false, has_href, prev);
        let now = write_run(false, has_href, evs);
        assert forall|i: int| 0 <= i < evs.len() implies #[trigger] now.1[i] != ActionKind::Put by {
            if i < prev.len() {
                assert(now.1[i] == before.1[i]);
            }
        }
    }
}

proof fn lemma_run_shape(server: bool, has_href: bool, evs: Seq<EventKind>)
    ensures
        write_run(server, has_href, evs).1.len() == evs.len(),
        server ==> forall|i: int| 0 <= i < evs.len() && #[trigger] write_run(server, has_href, evs).1[i] == ActionKind::StoreRow
            ==> evs[i] == EventKind::PutTaken && exists|j: int| 0 <= j < i && write_run(server, has_href, evs).1[j] == ActionKind::Put,
        server ==> (write_run(server, has_href, evs).0 == WriteStage::Sent || write_run(server, has_href, evs).0 == WriteStage::Storing
            || write_run(server, has_href, evs).0 == WriteStage::Done)
            ==> exists|j: int| 0 <= j < evs.len() && write_run(server, has_href, evs).1[j] == ActionKind::Put,
        server ==> (write_run(server, has_href, evs).0 == WriteStage::Storing || write_run(server, has_href, evs).0 == WriteStage::Done)
            ==> exists|j: int| 0 <= j < evs.len() && evs[j] == EventKind::PutTaken,
        (write_run(server, has_href, evs).0 == WriteStage::Start || write_run(server, has_href, evs).0 == WriteStage::Sent
            || write_run(server, has_href, evs).0 == WriteStage::Refused) ==> forall|i: int| 0 <= i < evs.len()
            ==> #[trigger] write_run(server, has_href, evs).1[i] != ActionKind::StoreRow,
    decreases evs.len(),
{
    if evs.len() > 0 {
        let prev = evs.drop_last();
        lemma_run_shape(server, has_href, prev);
        let before = write_run(server, has_href, prev);
        let now = write_run(server, has_href, evs);
        assert(now.1 == before.1.push(write_step_spec(server, has_href, before.0, evs.last()).1));
        assert forall|i: int| 0 <= i < prev.len() implies now.1[i] == before.1[i] && evs[i] == prev[i] by {}
        if server {
            assert forall|i: int| 0 <= i < evs.len() && #[trigger] now.1[i] == ActionKind::StoreRow
                implies evs[i] == EventKind::PutTaken && exists|j: int| 0 <= j < i && now.1[j] == ActionKind::Put by {
                if i < prev.len() {
                    assert(before.1[i] == ActionKind::StoreRow);
                    let j = choose|j: int| 0 <= j < i && before.1[j] == ActionKind::Put;
                    assert(now.1[j] == ActionKind::Put);
                } else {
                    assert(before.0 == WriteStage::Sent);
                    let j = choose|j: int| 0 <= j < prev.len() && before.1[j] == ActionKind::Put;
                    assert(now.1[j] == ActionKind::Put);
                }
            }
            if now.0 == WriteStage::Sent || now.0 == WriteStage::Storing || now.0 == WriteStage::Done {
                if before.0 == WriteStage::Start {
                    assert(now.1[prev.len() as int] == ActionKind::Put);
                } else {
                    let j = choose|j: int| 0 <= j < prev.len() && before.1[j] == ActionKind::Put;
                    assert(now.1[j] == ActionKind::Put);
                }
            }
            if now.0 == WriteStage::Storing || now.0 == WriteStage::Done {
                if before.0 == WriteStage::Sent {
                    assert(evs[prev.len() as int] == EventKind::PutTaken);
                } else {
                    let j = choose|j: int| 0 <= j < prev.len() && prev[j] == EventKind::PutTaken;
                    assert(evs[j] == EventKind::PutTaken);
                }
            }
        }
        if now.0 == WriteStage::Start || now.0 == WriteStage::Sent || now.0 == WriteStage::Refused {
            assert(before.0 == WriteStage::Start || before.0 == WriteStage::Sent || before.0 == WriteStage::Refused);
            assert forall|i: int| 0 <= i < evs.len() implies #[trigger] now.1[i] != ActionKind::StoreRow by {
                if i < prev.len() {
                    assert(before.1[i] != ActionKind::StoreRow);
                }
            }
        }
    }
}


} // verus!
