//! `omacal tasks` — the grammar of the task half of the CLI.
//!
//! The list is a read and every change goes to the app; what lives here is
//! what the words on the command line mean: which verb, which flags, which
//! list a `--list` names, and which day and hour an `edit` asks for.

use vstd::prelude::*;
use vstd::utf8::is_ascii_chars;
use crate::text::{
    ascii_lower,
    chars_eq, chars_of, eq_ignore_ascii_case, eq_ignore_case, lemma_views_push, push_all,
    slice_chars, starts_with, starts_with_exec, string_of, trim, trim_exec, views,
};
use crate::tasks::{StoredTask, TaskListVm, TASK_NEEDS_A_TITLE};
use crate::civil::{
    date_parses, date_of, time_of, civil_time, placed_millis, zoned_at, day_of, day_text_of, hour_of, minute_of,
    instant_or_epoch, clock_text, day_text, epoch, hour_text, midnight, parse_date, parse_time, time_parses, timestamp_of, utc,
    zone_named, zoned, zoned_day, zoned_millis,
};

verus! {

/// Which list `--list` names: its id, or its name as `omacal tasks lists`
/// prints it. A number is always an id.
#[derive(Debug, Clone, PartialEq)]
pub enum ListRef {
    Id(i64),
    Name(String),
}

pub enum ListRefView {
    Id(int),
    Name(Seq<char>),
}

impl View for ListRef {
    type V = ListRefView;

    open spec fn view(&self) -> ListRefView {
        match self {
            ListRef::Id(id) => ListRefView::Id(*id as int),
            ListRef::Name(n) => ListRefView::Name(n@),
        }
    }
}

/// One change to a task, as the CLI parses it.
#[derive(Debug, Clone, PartialEq)]
pub enum TaskCmd {
    Add {
        summary: String,
        /// Absent means the first list a task can be created on.
        list: Option<ListRef>,
        due: Option<String>,
        at: Option<String>,
    },
    /// `done` and `reopen`: one verb with a flag on the wire.
    Complete { id: i64, done: bool },
    Edit {
        id: i64,
        title: Option<String>,
        /// `Some(None)` is `--due none`: the date goes. Absent leaves it.
        due: Option<Option<String>>,
        at: Option<Option<String>>,
        notes: Option<Option<String>>,
    },
}

pub enum TaskCmdView {
    Add { summary: Seq<char>, list: Option<ListRefView>, due: Option<Seq<char>>, at: Option<Seq<char>> },
    Complete { id: int, done: bool },
    Edit {
        id: int,
        title: Option<Seq<char>>,
        due: Option<Option<Seq<char>>>,
        at: Option<Option<Seq<char>>>,
        notes: Option<Option<Seq<char>>>,
    },
}

pub open spec fn opt_str(o: Option<String>) -> Option<Seq<char>> {
    match o {
        Some(s) => Some(s@),
        None => None,
    }
}

pub open spec fn opt_opt_str(o: Option<Option<String>>) -> Option<Option<Seq<char>>> {
    match o {
        Some(i) => Some(opt_str(i)),
        None => None,
    }
}

impl View for TaskCmd {
    type V = TaskCmdView;

    open spec fn view(&self) -> TaskCmdView {
        match self {
            TaskCmd::Add { summary, list, due, at } => TaskCmdView::Add {
                summary: summary@,
                list: match list {
                    Some(l) => Some(l@),
                    None => None,
                },
                due: opt_str(*due),
                at: opt_str(*at),
            },
            TaskCmd::Complete { id, done } => TaskCmdView::Complete { id: *id as int, done: *done },
            TaskCmd::Edit { id, title, due, at, notes } => TaskCmdView::Edit {
                id: *id as int,
                title: opt_str(*title),
                due: opt_opt_str(*due),
                at: opt_opt_str(*at),
                notes: opt_opt_str(*notes),
            },
        }
    }
}

// ------------------------------------------------------------ integers

pub open spec fn is_digit(c: char) -> bool {
    '0' <= c && c <= '9'
}

pub open spec fn all_digits(s: Seq<char>) -> bool {
    forall|k: int| 0 <= k < s.len() ==> is_digit(#[trigger] s[k])
}

pub open spec fn digits_value(s: Seq<char>) -> int
    decreases s.len(),
{
    if s.len() == 0 {
        0
    } else {
        digits_value(s.drop_last()) * 10 + (s.last() as int - '0' as int)
    }
}

/// `str::parse::<i64>`: an optional `+` or `-`, then one or more decimal
/// digits, naming a value that fits.
pub open spec fn parse_i64(s: Seq<char>) -> Option<int> {
    let signed = s.len() > 0 && (s[0] == '+' || s[0] == '-');
    let digits = if signed { s.drop_first() } else { s };
    let v = if signed && s[0] == '-' { -digits_value(digits) } else { digits_value(digits) };
    if digits.len() == 0 || !all_digits(digits) {
        None
    } else if i64::MIN <= v && v <= i64::MAX {
        Some(v)
    } else {
        None
    }
}

proof fn lemma_digits_value_grows(s: Seq<char>, k: int)
    requires
        all_digits(s),
        0 <= k <= s.len(),
    ensures
        0 <= digits_value(s.take(k)) <= digits_value(s),
    decreases s.len(),
{
    if s.len() > 0 {
        if k == s.len() {
            assert(s.take(k) =~= s);
            lemma_digits_value_grows(s.drop_last(), k - 1);
        } else {
            lemma_digits_value_grows(s.drop_last(), k);
            assert(s.drop_last().take(k) =~= s.take(k));
        }
        assert(is_digit(s[s.len() - 1]));
        lemma_digits_value_grows(s.drop_last(), s.len() - 1);
        assert(s.drop_last().take(s.len() - 1) =~= s.drop_last());
    } else {
        assert(s.take(k) =~= s);
    }
}

/// Reads a decimal `i64` the way `str::parse::<i64>` does.
#[verifier::loop_isolation(false)]
pub fn parse_i64_exec(s: &Vec<char>) -> (r: Option<i64>)
    ensures
        match r {
            Some(v) => parse_i64(s@) == Some(v as int),
            None => parse_i64(s@) is None,
        },
{
    let signed = s.len() > 0 && (s[0] == '+' || s[0] == '-');
    let neg = signed && s[0] == '-';
    let start: usize = if signed { 1 } else { 0 };
    let ghost digits = if signed { s@.drop_first() } else { s@ };
    assert(digits =~= s@.subrange(start as int, s.len() as int));
    if start == s.len() {
        return None;
    }
    let bound: u128 = 9223372036854775808;
    let mut acc: u128 = 0;
    let mut i: usize = start;
    while i < s.len()
        invariant
            start <= i <= s.len(),
            digits == s@.subrange(start as int, s.len() as int),
            acc <= bound,
            all_digits(digits.take(i - start)),
            acc as int == digits_value(digits.take(i - start)),
        decreases s.len() - i,
    {
        let c = s[i];
        if c < '0' || c > '9' {
            assert(digits[i - start] == c);
            assert(!is_digit(digits[i - start]));
            assert(!all_digits(digits));
            return None;
        }
        let d = (c as u32 - '0' as u32) as u128;
        assert(d <= 9);
        assert(digits.take(i - start + 1).drop_last() =~= digits.take(i - start));
        acc = acc * 10 + d;
        assert(all_digits(digits.take(i - start + 1)));
        if acc > bound {
            assert(digits.take(i - start + 1) =~= s@.subrange(start as int, i + 1));
            return none_when_too_big(s, start, i + 1, acc);
        }
        i += 1;
    }
    assert(digits.take(i - start) =~= digits);
    if neg {
        if acc == bound {
            Some(i64::MIN)
        } else {
            Some(-(acc as i64))
        }
    } else if acc < bound {
        Some(acc as i64)
    } else {
        None
    }
}

/// Past the bound: either a later character is not a digit, or the whole
/// number is too big. Scans on to say which, for an exact answer.
#[verifier::loop_isolation(false)]
fn none_when_too_big(s: &Vec<char>, start: usize, from: usize, acc: u128) -> (r: Option<i64>)
    requires
        start <= from <= s.len(),
        start <= 1,
        start == 1 <==> (s.len() > 0 && (s@[0] == '+' || s@[0] == '-')),
        all_digits(s@.subrange(start as int, from as int)),
        acc as int == digits_value(s@.subrange(start as int, from as int)),
        acc > 9223372036854775808,
    ensures
        r is None,
        parse_i64(s@) is None,
{
    let ghost digits = s@.subrange(start as int, s.len() as int);
    let mut i: usize = from;
    while i < s.len()
        invariant
            start <= from <= i <= s.len(),
            digits == s@.subrange(start as int, s.len() as int),
            all_digits(s@.subrange(start as int, i as int)),
        decreases s.len() - i,
    {
        if s[i] < '0' || s[i] > '9' {
            assert(digits[i - start] == s@[i as int]);
            assert(!is_digit(digits[i - start]));
            assert(!all_digits(digits));
            assert(s.len() > 0 && (s@[0] == '+' || s@[0] == '-') ==> digits =~= s@.drop_first());
            assert(!(s.len() > 0 && (s@[0] == '+' || s@[0] == '-')) ==> digits =~= s@);
            return None;
        }
        assert(s@.subrange(start as int, i + 1) =~= s@.subrange(start as int, i as int).push(s@[i as int]));
        i += 1;
    }
    assert(digits =~= s@.subrange(start as int, i as int));
    proof {
        lemma_digits_value_grows(digits, from - start);
        assert(digits.take(from - start) =~= s@.subrange(start as int, from as int));
    }
    assert(s.len() > 0 && (s@[0] == '+' || s@[0] == '-') ==> digits =~= s@.drop_first());
    assert(!(s.len() > 0 && (s@[0] == '+' || s@[0] == '-')) ==> digits =~= s@);
    None
}

// ------------------------------------------------------------- the verbs

pub open spec fn is_flag(a: Seq<char>) -> bool {
    starts_with(a, "--"@)
}

/// The index of the first word that is not a flag.
pub open spec fn first_non_flag(args: Seq<Seq<char>>) -> Option<int>
    decreases args.len(),
{
    if args.len() == 0 {
        None
    } else if !is_flag(args[0]) {
        Some(0)
    } else {
        match first_non_flag(args.drop_first()) {
            Some(k) => Some(k + 1),
            None => None,
        }
    }
}

/// The index of the first word equal to `name`.
pub open spec fn first_equal(args: Seq<Seq<char>>, name: Seq<char>) -> Option<int>
    decreases args.len(),
{
    if args.len() == 0 {
        None
    } else if args[0] == name {
        Some(0)
    } else {
        match first_equal(args.drop_first(), name) {
            Some(k) => Some(k + 1),
            None => None,
        }
    }
}

/// `--flag value`: the word after the first `--flag`, which must be there
/// and must not be a flag itself.
pub open spec fn take_flag(args: Seq<Seq<char>>, name: Seq<char>) -> Result<Option<Seq<char>>, Seq<char>> {
    match first_equal(args, name) {
        None => Ok(None),
        Some(j) => if j + 1 < args.len() && !is_flag(args[j + 1]) {
            Ok(Some(args[j + 1]))
        } else {
            Err(name + " needs a value"@)
        },
    }
}

/// The first word that is not a flag.
pub open spec fn positional(args: Seq<Seq<char>>) -> Option<Seq<char>> {
    match first_non_flag(args) {
        Some(k) => Some(args[k]),
        None => None,
    }
}

pub open spec fn id_usage(what: Seq<char>) -> Seq<char> {
    "usage: omacal tasks "@ + what + " ID — `omacal tasks` prints ids"@
}

pub open spec fn id_of(args: Seq<Seq<char>>, what: Seq<char>) -> Result<int, Seq<char>> {
    match positional(args) {
        Some(p) => match parse_i64(p) {
            Some(v) => Ok(v),
            None => Err(id_usage(what)),
        },
        None => Err(id_usage(what)),
    }
}

/// A `--list` value: a number is an id, anything else a name.
pub open spec fn list_ref_of(v: Seq<char>) -> ListRefView {
    match parse_i64(v) {
        Some(id) => ListRefView::Id(id),
        None => ListRefView::Name(v),
    }
}

/// `--flag none` clears; absent leaves alone; a value sets.
pub open spec fn clearable(v: Option<Seq<char>>) -> Option<Option<Seq<char>>> {
    match v {
        Some(s) => Some(if eq_ignore_ascii_case(s, "none"@) { None } else { Some(s) }),
        None => None,
    }
}

pub open spec fn parse_verb(verb: Seq<char>, args: Seq<Seq<char>>) -> Result<TaskCmdView, Seq<char>> {
    if verb == "add"@ {
        match positional(args) {
            None => Err(ADD_USAGE@),
            Some(summary) => match take_flag(args, "--list"@) {
                Err(e) => Err(e),
                Ok(list) => match take_flag(args, "--due"@) {
                    Err(e) => Err(e),
                    Ok(due) => match take_flag(args, "--at"@) {
                        Err(e) => Err(e),
                        Ok(at) => Ok(TaskCmdView::Add {
                            summary,
                            list: match list {
                                Some(v) => Some(list_ref_of(v)),
                                None => None,
                            },
                            due,
                            at,
                        }),
                    },
                },
            },
        }
    } else if verb == "done"@ || verb == "reopen"@ {
        match id_of(args, verb) {
            Ok(id) => Ok(TaskCmdView::Complete { id, done: verb == "done"@ }),
            Err(e) => Err(e),
        }
    } else if verb == "edit"@ {
        match id_of(args, "edit"@) {
            Err(e) => Err(e),
            Ok(id) => match take_flag(args, "--title"@) {
                Err(e) => Err(e),
                Ok(title) => match take_flag(args, "--due"@) {
                    Err(e) => Err(e),
                    Ok(due) => match take_flag(args, "--at"@) {
                        Err(e) => Err(e),
                        Ok(at) => match take_flag(args, "--notes"@) {
                            Err(e) => Err(e),
                            Ok(notes) => if title is None && due is None && at is None && notes is None {
                                Err(EDIT_NEEDS_A_CHANGE@)
                            } else {
                                Ok(TaskCmdView::Edit {
                                    id,
                                    title,
                                    due: clearable(due),
                                    at: clearable(at),
                                    notes: clearable(notes),
                                })
                            },
                        },
                    },
                },
            },
        }
    } else {
        Err("usage: omacal tasks [add|done|reopen|edit] — not \""@ + verb + "\""@)
    }
}

/// What a command line after `omacal tasks` asks for: nothing (the bare
/// read) when every word is a flag, else the verb that is the first
/// non-flag word read against the words after it.
pub open spec fn parse_spec(rest: Seq<Seq<char>>) -> Option<Result<TaskCmdView, Seq<char>>> {
    match first_non_flag(rest) {
        None => None,
        Some(i) => Some(parse_verb(rest[i], rest.skip(i + 1))),
    }
}

pub const ADD_USAGE: &'static str = "usage: omacal tasks add \"a title\" [--list ID|NAME] [--due YYYY-MM-DD] [--at HH:MM]";

pub const EDIT_NEEDS_A_CHANGE: &'static str = "omacal tasks edit ID needs something to change: --title, --due, --at or --notes (--due none clears the date)";

pub open spec fn words(rest: Seq<&String>) -> Seq<Seq<char>> {
    rest.map_values(|a: &String| a@)
}

pub open spec fn cmd_result_view(r: Result<TaskCmd, String>) -> Result<TaskCmdView, Seq<char>> {
    match r {
        Ok(c) => Ok(c@),
        Err(e) => Err(e@),
    }
}

fn first_non_flag_exec(args: &Vec<Vec<char>>) -> (r: Option<usize>)
    ensures
        match r {
            Some(k) => first_non_flag(views(args@)) == Some(k as int) && k < args.len(),
            None => first_non_flag(views(args@)) is None,
        },
{
    let dash = chars_of("--");
    let mut k: usize = 0;
    while k < args.len()
        invariant
            k <= args.len(),
            dash@ == "--"@,
            forall|j: int| 0 <= j < k ==> is_flag(#[trigger] views(args@)[j]),
        decreases args.len() - k,
    {
        if !starts_with_exec(&args[k], &dash) {
            proof { lemma_first_non_flag_at(views(args@), k as int); }
            return Some(k);
        }
        k += 1;
    }
    proof { lemma_first_non_flag_none(views(args@)); }
    None
}

proof fn lemma_verbs_distinct()
    ensures
        "edit"@ != "add"@,
        "edit"@ != "done"@,
        "edit"@ != "reopen"@,
        "done"@ != "add"@,
        "reopen"@ != "add"@,
        "reopen"@ != "done"@,
{
    reveal_strlit("edit");
    reveal_strlit("add");
    reveal_strlit("done");
    reveal_strlit("reopen");
    assert("edit"@[0] != "done"@[0]);
    assert("edit"@.len() != "add"@.len());
    assert("edit"@.len() != "reopen"@.len());
    assert("done"@.len() != "add"@.len());
    assert("reopen"@.len() != "add"@.len());
    assert("reopen"@.len() != "done"@.len());
}

proof fn lemma_first_non_flag_at(args: Seq<Seq<char>>, k: int)
    requires
        0 <= k < args.len(),
        !is_flag(args[k]),
        forall|j: int| 0 <= j < k ==> is_flag(#[trigger] args[j]),
    ensures
        first_non_flag(args) == Some(k),
    decreases k,
{
    if k > 0 {
        lemma_first_non_flag_at(args.drop_first(), k - 1);
    }
}

proof fn lemma_first_non_flag_none(args: Seq<Seq<char>>)
    requires
        forall|j: int| 0 <= j < args.len() ==> is_flag(#[trigger] args[j]),
    ensures
        first_non_flag(args) is None,
    decreases args.len(),
{
    if args.len() > 0 {
        lemma_first_non_flag_none(args.drop_first());
    }
}

proof fn lemma_first_equal_at(args: Seq<Seq<char>>, name: Seq<char>, k: int)
    requires
        0 <= k < args.len(),
        args[k] == name,
        forall|j: int| 0 <= j < k ==> #[trigger] args[j] != name,
    ensures
        first_equal(args, name) == Some(k),
    decreases k,
{
    if k > 0 {
        lemma_first_equal_at(args.drop_first(), name, k - 1);
    }
}

proof fn lemma_first_equal_none(args: Seq<Seq<char>>, name: Seq<char>)
    requires
        forall|j: int| 0 <= j < args.len() ==> #[trigger] args[j] != name,
    ensures
        first_equal(args, name) is None,
    decreases args.len(),
{
    if args.len() > 0 {
        lemma_first_equal_none(args.drop_first(), name);
    }
}

fn positional_exec(args: &Vec<Vec<char>>) -> (r: Option<Vec<char>>)
    ensures
        match r {
            Some(v) => positional(views(args@)) == Some(v@),
            None => positional(views(args@)) is None,
        },
{
    match first_non_flag_exec(args) {
        Some(k) => Some(slice_chars(&args[k], 0, args[k].len())),
        None => None,
    }
}

pub open spec fn opt_chars_view(o: Option<Vec<char>>) -> Option<Seq<char>> {
    match o {
        Some(v) => Some(v@),
        None => None,
    }
}

fn take_exec(args: &Vec<Vec<char>>, name: &str) -> (r: Result<Option<Vec<char>>, String>)
    ensures
        match r {
            Ok(o) => take_flag(views(args@), name@) == Ok::<Option<Seq<char>>, Seq<char>>(opt_chars_view(o)),
            Err(e) => take_flag(views(args@), name@) == Err::<Option<Seq<char>>, Seq<char>>(e@),
        },
{
    let wanted = chars_of(name);
    let dash = chars_of("--");
    let mut j: usize = 0;
    while j < args.len()
        invariant
            j <= args.len(),
            wanted@ == name@,
            dash@ == "--"@,
            forall|i: int| 0 <= i < j ==> #[trigger] views(args@)[i] != name@,
        decreases args.len() - j,
    {
        assert(views(args@)[j as int] == args@[j as int]@);
        if chars_eq(&args[j], &wanted) {
            proof { lemma_first_equal_at(views(args@), name@, j as int); }
            if j + 1 < args.len() {
                assert(views(args@)[j + 1] == args@[j + 1]@);
            }
            if j + 1 < args.len() && !starts_with_exec(&args[j + 1], &dash) {
                let v = slice_chars(&args[j + 1], 0, args[j + 1].len());
                assert(v@ =~= args@[j + 1]@);
                return Ok(Some(v));
            }
            let mut msg = wanted;
            push_all(&mut msg, &chars_of(" needs a value"));
            return Err(string_of(&msg));
        }
        j += 1;
    }
    proof { lemma_first_equal_none(views(args@), name@); }
    Ok(None)
}

fn id_exec(args: &Vec<Vec<char>>, what: &str) -> (r: Result<i64, String>)
    ensures
        match r {
            Ok(v) => id_of(views(args@), what@) == Ok::<int, Seq<char>>(v as int),
            Err(e) => id_of(views(args@), what@) == Err::<int, Seq<char>>(e@),
        },
{
    if let Some(p) = positional_exec(args) {
        if let Some(v) = parse_i64_exec(&p) {
            return Ok(v);
        }
    }
    let mut msg = chars_of("usage: omacal tasks ");
    push_all(&mut msg, &chars_of(what));
    push_all(&mut msg, &chars_of(" ID — `omacal tasks` prints ids"));
    Err(string_of(&msg))
}

fn clearable_exec(v: Option<Vec<char>>) -> (r: Option<Option<String>>)
    ensures
        opt_opt_str(r) == clearable(opt_chars_view(v)),
{
    match v {
        Some(s) => {
            let none_word = chars_of("none");
            if eq_ignore_case(&s, &none_word) {
                Some(None)
            } else {
                Some(Some(string_of(&s)))
            }
        },
        None => None,
    }
}

fn opt_string_of(v: Option<Vec<char>>) -> (r: Option<String>)
    ensures
        opt_str(r) == opt_chars_view(v),
{
    match v {
        Some(s) => Some(string_of(&s)),
        None => None,
    }
}

fn parse_add(args: &Vec<Vec<char>>) -> (r: Result<TaskCmd, String>)
    ensures
        cmd_result_view(r) == parse_verb("add"@, views(args@)),
{
    let summary = match positional_exec(args) {
        Some(s) => s,
        None => return Err(string_of(&chars_of(ADD_USAGE))),
    };
    let list = match take_exec(args, "--list") {
        Ok(l) => l,
        Err(e) => return Err(e),
    };
    let due = match take_exec(args, "--due") {
        Ok(d) => d,
        Err(e) => return Err(e),
    };
    let at = match take_exec(args, "--at") {
        Ok(a) => a,
        Err(e) => return Err(e),
    };
    let list_ref = match list {
        Some(v) => match parse_i64_exec(&v) {
            Some(id) => Some(ListRef::Id(id)),
            None => Some(ListRef::Name(string_of(&v))),
        },
        None => None,
    };
    Ok(TaskCmd::Add { summary: string_of(&summary), list: list_ref, due: opt_string_of(due), at: opt_string_of(at) })
}

fn parse_edit(args: &Vec<Vec<char>>) -> (r: Result<TaskCmd, String>)
    ensures
        cmd_result_view(r) == parse_verb("edit"@, views(args@)),
{
    proof { lemma_verbs_distinct(); }
    let id = match id_exec(args, "edit") {
        Ok(id) => id,
        Err(e) => return Err(e),
    };
    let title = match take_exec(args, "--title") {
        Ok(t) => t,
        Err(e) => return Err(e),
    };
    let due = match take_exec(args, "--due") {
        Ok(d) => d,
        Err(e) => return Err(e),
    };
    let at = match take_exec(args, "--at") {
        Ok(a) => a,
        Err(e) => return Err(e),
    };
    let notes = match take_exec(args, "--notes") {
        Ok(n) => n,
        Err(e) => return Err(e),
    };
    if title.is_none() && due.is_none() && at.is_none() && notes.is_none() {
        return Err(string_of(&chars_of(EDIT_NEEDS_A_CHANGE)));
    }
    Ok(TaskCmd::Edit {
        id,
        title: opt_string_of(title),
        due: clearable_exec(due),
        at: clearable_exec(at),
        notes: clearable_exec(notes),
    })
}

/// `omacal tasks add|done|reopen|edit …`, or `None` for the bare read.
pub fn parse(rest: &[&String]) -> (r: Option<Result<TaskCmd, String>>)
    ensures
        match r {
            Some(res) => parse_spec(words(rest@)) == Some(cmd_result_view(res)),
            None => parse_spec(words(rest@)) is None,
        },
{
    let mut all: Vec<Vec<char>> = Vec::new();
    let mut k: usize = 0;
    while k < rest.len()
        invariant
            k <= rest.len(),
            views(all@) == words(rest@).take(k as int),
        decreases rest.len() - k,
    {
        let w = chars_of(rest[k].as_str());
        proof { lemma_views_push(all@, w); }
        all.push(w);
        assert(views(all@) =~= words(rest@).take(k + 1));
        k += 1;
    }
    assert(words(rest@).take(rest.len() as int) =~= words(rest@));
    let i = match first_non_flag_exec(&all) {
        Some(i) => i,
        None => return None,
    };
    let mut args: Vec<Vec<char>> = Vec::new();
    let mut j: usize = i + 1;
    while j < rest.len()
        invariant
            i < j <= rest.len(),
            i < rest.len(),
            views(args@) == words(rest@).subrange(i + 1, j as int),
        decreases rest.len() - j,
    {
        let w = chars_of(rest[j].as_str());
        proof { lemma_views_push(args@, w); }
        args.push(w);
        assert(views(args@) =~= words(rest@).subrange(i + 1, j + 1));
        j += 1;
    }
    assert(views(args@) =~= words(rest@).skip(i + 1));
    let verb = &all[i];
    proof { lemma_verbs_distinct(); }
    let add = chars_of("add");
    let done = chars_of("done");
    let reopen = chars_of("reopen");
    let edit = chars_of("edit");
    let res = if chars_eq(verb, &add) {
        parse_add(&args)
    } else if chars_eq(verb, &done) {
        match id_exec(&args, "done") {
            Ok(id) => Ok(TaskCmd::Complete { id, done: true }),
            Err(e) => Err(e),
        }
    } else if chars_eq(verb, &reopen) {
        match id_exec(&args, "reopen") {
            Ok(id) => Ok(TaskCmd::Complete { id, done: false }),
            Err(e) => Err(e),
        }
    } else if chars_eq(verb, &edit) {
        parse_edit(&args)
    } else {
        let mut msg = chars_of("usage: omacal tasks [add|done|reopen|edit] — not \"");
        push_all(&mut msg, verb);
        push_all(&mut msg, &chars_of("\""));
        Err(string_of(&msg))
    };
    Some(res)
}

/// Flags are not verbs: a command line is the bare read exactly when every
/// word on it is a flag.
pub proof fn law_only_flags_is_the_read(rest: Seq<Seq<char>>)
    ensures
        parse_spec(rest) is None <==> forall|i: int| 0 <= i < rest.len() ==> is_flag(#[trigger] rest[i]),
    decreases rest.len(),
{
    if rest.len() > 0 {
        law_only_flags_is_the_read(rest.drop_first());
        assert forall|i: int| 0 <= i < rest.drop_first().len() implies #[trigger] rest.drop_first()[i] == rest[i + 1] by {}
        if forall|i: int| 0 <= i < rest.len() ==> is_flag(#[trigger] rest[i]) {
            assert(is_flag(rest[0]));
            assert forall|i: int| 0 <= i < rest.drop_first().len() implies is_flag(#[trigger] rest.drop_first()[i]) by {
                assert(is_flag(rest[i + 1]));
            }
        } else if is_flag(rest[0]) {
            let k = choose|i: int| 0 <= i < rest.len() && !is_flag(#[trigger] rest[i]);
            assert(k > 0);
            assert(!is_flag(rest.drop_first()[k - 1]));
        }
    }
}

/// How an edit's `--due`, `--at` and `--notes` answer, by the words after
/// the verb: absent, the field is left alone; otherwise the word after the
/// first such flag — which must be there — clears the field when it is
/// `none` in any case, and sets it to itself when it is anything else.
pub open spec fn clearing_rule(args: Seq<Seq<char>>, name: Seq<char>, got: Option<Option<Seq<char>>>) -> bool {
    &&& (forall|k: int| 0 <= k < args.len() ==> #[trigger] args[k] != name) ==> got is None
    &&& forall|j: int| 0 <= j < args.len() && #[trigger] args[j] == name && (forall|k: int| 0 <= k < j ==> #[trigger] args[k] != name)
        ==> j + 1 < args.len() && (eq_ignore_ascii_case(args[j + 1], "none"@) ==> got == Some(None::<Seq<char>>))
            && (!eq_ignore_ascii_case(args[j + 1], "none"@) ==> got == Some(Some(args[j + 1])))
}

proof fn lemma_clearing_rule(args: Seq<Seq<char>>, name: Seq<char>, v: Option<Seq<char>>)
    requires
        take_flag(args, name) == Ok::<Option<Seq<char>>, Seq<char>>(v),
    ensures
        clearing_rule(args, name, clearable(v)),
{
    assert forall|j: int| 0 <= j < args.len() && #[trigger] args[j] == name && (forall|k: int| 0 <= k < j ==> #[trigger] args[k] != name)
        implies j + 1 < args.len() && (eq_ignore_ascii_case(args[j + 1], "none"@) ==> clearable(v) == Some(None::<Seq<char>>))
            && (!eq_ignore_ascii_case(args[j + 1], "none"@) ==> clearable(v) == Some(Some(args[j + 1]))) by {
        lemma_first_equal_at(args, name, j);
    }
    if forall|k: int| 0 <= k < args.len() ==> #[trigger] args[k] != name {
        lemma_first_equal_none(args, name);
    }
}

/// `edit`'s clearing rule: `--due none`, `--at none` and `--notes none` (in
/// any case) clear the date, the hour and the note; any other value sets
/// it; a flag not given leaves the field alone. The words it reads are
/// those after the verb, the first word that is not a flag.
pub proof fn law_none_clears_an_edits_field(rest: Seq<Seq<char>>)
    ensures
        parse_spec(rest) matches Some(Ok(TaskCmdView::Edit { due, at, notes, .. })) ==> ({
            let args = rest.skip(first_non_flag(rest)->0 + 1);
            &&& clearing_rule(args, "--due"@, due)
            &&& clearing_rule(args, "--at"@, at)
            &&& clearing_rule(args, "--notes"@, notes)
        }),
{
    if let Some(i) = first_non_flag(rest) {
        let args = rest.skip(i + 1);
        let verb = rest[i];
        if parse_verb(verb, args) is Ok && verb == "edit"@ {
            if let (Ok(due), Ok(at), Ok(notes)) = (take_flag(args, "--due"@), take_flag(args, "--at"@), take_flag(args, "--notes"@)) {
                lemma_clearing_rule(args, "--due"@, due);
                lemma_clearing_rule(args, "--at"@, at);
                lemma_clearing_rule(args, "--notes"@, notes);
            }
        }
        if verb != "edit"@ {
            reveal_strlit("add");
            reveal_strlit("edit");
            reveal_strlit("done");
            reveal_strlit("reopen");
        }
    }
}

// ------------------------------------------------------------ the list

/// What Unicode lower-casing (`str::to_lowercase`) makes of a text.
pub uninterp spec fn lowercase(s: Seq<char>) -> Seq<char>;

/// `str::to_lowercase`: full Unicode case mapping, whose result is named
/// `lowercase` rather than spelled out here. Claimed besides: on a text of
/// ASCII characters alone it is ASCII lower-casing, as Unicode's mapping
/// of those characters is.
#[verifier::external_body]
fn to_lowercase(s: &str) -> (r: String)
    ensures
        r@ == lowercase(s@),
        is_ascii_chars(s@) ==> r@ == ascii_lower(s@),
{
    s.to_lowercase()
}

pub open spec fn names_list(l: TaskListVm, wanted: Seq<char>) -> bool {
    lowercase(l.name@) == wanted
}

/// How many lists answer to `wanted`.
pub open spec fn match_count(lists: Seq<TaskListVm>, wanted: Seq<char>) -> nat
    decreases lists.len(),
{
    if lists.len() == 0 {
        0
    } else {
        match_count(lists.drop_last(), wanted) + if names_list(lists.last(), wanted) { 1nat } else { 0nat }
    }
}

/// The first list that answers to `wanted`.
pub open spec fn first_match(lists: Seq<TaskListVm>, wanted: Seq<char>) -> Option<int>
    decreases lists.len(),
{
    if lists.len() == 0 {
        None
    } else if first_match(lists.drop_last(), wanted) is Some {
        first_match(lists.drop_last(), wanted)
    } else if names_list(lists.last(), wanted) {
        Some(lists.len() - 1)
    } else {
        None
    }
}

pub open spec fn no_such_list(name: Seq<char>) -> Seq<char> {
    "no task list is called “"@ + name + "” — `omacal tasks lists` names them"@
}

pub open spec fn ambiguous_list(name: Seq<char>) -> Seq<char> {
    "more than one list is called “"@ + name + "” — use its id from `omacal tasks lists`"@
}

/// `--list`'s answer against the lists a task can go on: an id passes as it
/// is (the app refuses one that is not a task list), and a name must match
/// exactly one list, in any case and with its ends trimmed — never the
/// nearest, and never one of two.
pub open spec fn resolve_list_spec(list: Option<ListRefView>, lists: Seq<TaskListVm>) -> Result<Option<int>, Seq<char>> {
    match list {
        None => Ok(None),
        Some(ListRefView::Id(id)) => Ok(Some(id)),
        Some(ListRefView::Name(name)) => {
            let wanted = lowercase(trim(name));
            let n = match_count(lists, wanted);
            if n == 1 {
                Ok(Some(lists[first_match(lists, wanted)->0].calendar_id as int))
            } else if n == 0 {
                Err(no_such_list(name))
            } else {
                Err(ambiguous_list(name))
            }
        },
    }
}

pub open spec fn opt_list_view(l: Option<ListRef>) -> Option<ListRefView> {
    match l {
        Some(r) => Some(r@),
        None => None,
    }
}

pub open spec fn id_result_view(r: Result<Option<i64>, String>) -> Result<Option<int>, Seq<char>> {
    match r {
        Ok(Some(id)) => Ok(Some(id as int)),
        Ok(None) => Ok(None),
        Err(e) => Err(e@),
    }
}

proof fn lemma_first_match_bounds(lists: Seq<TaskListVm>, wanted: Seq<char>)
    ensures
        first_match(lists, wanted) matches Some(i) ==> 0 <= i < lists.len() && names_list(lists[i], wanted),
        first_match(lists, wanted) is None <==> match_count(lists, wanted) == 0,
    decreases lists.len(),
{
    if lists.len() > 0 {
        lemma_first_match_bounds(lists.drop_last(), wanted);
    }
}

proof fn lemma_count_one_unique(lists: Seq<TaskListVm>, wanted: Seq<char>, i: int)
    requires
        match_count(lists, wanted) == 1,
        0 <= i < lists.len(),
        names_list(lists[i], wanted),
    ensures
        first_match(lists, wanted) == Some(i),
    decreases lists.len(),
{
    lemma_first_match_bounds(lists.drop_last(), wanted);
    if i == lists.len() - 1 {
        assert(match_count(lists.drop_last(), wanted) == 0);
    } else {
        assert(lists.drop_last()[i] == lists[i]);
        lemma_count_positive(lists.drop_last(), wanted, i);
        if names_list(lists.last(), wanted) {
            assert(false);
        }
        lemma_count_one_unique(lists.drop_last(), wanted, i);
    }
}

proof fn lemma_count_positive(lists: Seq<TaskListVm>, wanted: Seq<char>, i: int)
    requires
        0 <= i < lists.len(),
        names_list(lists[i], wanted),
    ensures
        match_count(lists, wanted) >= 1,
    decreases lists.len(),
{
    if i < lists.len() - 1 {
        assert(lists.drop_last()[i] == lists[i]);
        lemma_count_positive(lists.drop_last(), wanted, i);
    }
}

/// A name resolves to a list only when exactly one list answers to it, in
/// any case and with its ends trimmed — never the nearest, and never one of
/// two — and then to that list's id.
pub proof fn law_a_name_resolves_to_its_only_list(name: Seq<char>, lists: Seq<TaskListVm>, id: int)
    requires
        resolve_list_spec(Some(ListRefView::Name(name)), lists) == Ok::<Option<int>, Seq<char>>(Some(id)),
    ensures
        exists|i: int| 0 <= i < lists.len() && names_list(lists[i], lowercase(trim(name))) && lists[i].calendar_id == id,
        forall|i: int, j: int| 0 <= i < lists.len() && 0 <= j < lists.len() && names_list(#[trigger] lists[i], lowercase(trim(name)))
            && names_list(#[trigger] lists[j], lowercase(trim(name))) ==> i == j,
{
    let wanted = lowercase(trim(name));
    lemma_first_match_bounds(lists, wanted);
    assert(match_count(lists, wanted) == 1);
    let k = first_match(lists, wanted)->0;
    assert(names_list(lists[k], wanted) && lists[k].calendar_id == id);
    assert forall|i: int, j: int| 0 <= i < lists.len() && 0 <= j < lists.len() && names_list(#[trigger] lists[i], wanted)
        && names_list(#[trigger] lists[j], wanted) implies i == j by {
        lemma_count_one_unique(lists, wanted, i);
        lemma_count_one_unique(lists, wanted, j);
    }
}

/// `--list`'s answer, as [`resolve_list_spec`] gives it. Where the name
/// asked for, or a list's name, is ASCII, the lower-casing it is compared
/// under is plain ASCII lower-casing.
pub fn resolve_list(list: &Option<ListRef>, lists: &[TaskListVm]) -> (r: Result<Option<i64>, String>)
    ensures
        id_result_view(r) == resolve_list_spec(opt_list_view(*list), lists@),
        *list matches Some(ListRef::Name(n)) ==> (is_ascii_chars(trim(n@)) ==> lowercase(trim(n@)) == ascii_lower(trim(n@))),
        *list matches Some(ListRef::Name(n)) ==> forall|k: int| 0 <= k < lists@.len() && is_ascii_chars(lists@[k].name@)
            ==> #[trigger] lowercase(lists@[k].name@) == ascii_lower(lists@[k].name@),
{
    match list {
        None => Ok(None),
        Some(ListRef::Id(id)) => Ok(Some(*id)),
        Some(ListRef::Name(name)) => {
            let name_chars = chars_of(name.as_str());
            let trimmed = string_of(&trim_exec(&name_chars));
            let wanted = chars_of(to_lowercase(trimmed.as_str()).as_str());
            let mut count: usize = 0;
            let mut hit: Option<i64> = None;
            let mut i: usize = 0;
            while i < lists.len()
                invariant
                    i <= lists.len(),
                    count == match_count(lists@.take(i as int), wanted@) || (count == 2 && match_count(
                        lists@.take(i as int),
                        wanted@,
                    ) >= 2),
                    count <= 2,
                    is_ascii_chars(trim(name@)) ==> lowercase(trim(name@)) == ascii_lower(trim(name@)),
                    forall|k: int| 0 <= k < i && is_ascii_chars(lists@[k].name@)
                        ==> #[trigger] lowercase(lists@[k].name@) == ascii_lower(lists@[k].name@),
                    match first_match(lists@.take(i as int), wanted@) {
                        Some(k) => hit == Some(lists@[k].calendar_id) && k < i,
                        None => hit is None,
                    },
                decreases lists.len() - i,
            {
                let ghost before = lists@.take(i as int);
                assert(lists@.take(i + 1).drop_last() =~= before);
                assert(lists@.take(i + 1).last() == lists@[i as int]);
                let lowered = to_lowercase(lists[i].name.as_str());
                let here = chars_of(lowered.as_str());
                if chars_eq(&here, &wanted) {
                    if hit.is_none() {
                        hit = Some(lists[i].calendar_id);
                    }
                    if count < 2 {
                        count += 1;
                    }
                }
                i += 1;
            }
            assert(lists@.take(lists.len() as int) =~= lists@);
            proof { lemma_first_match_bounds(lists@, wanted@); }
            if count == 1 {
                match hit {
                    Some(id) => Ok(Some(id)),
                    None => Ok(None),
                }
            } else if count == 0 {
                let mut msg = chars_of("no task list is called “");
                push_all(&mut msg, &name_chars);
                push_all(&mut msg, &chars_of("” — `omacal tasks lists` names them"));
                Err(string_of(&msg))
            } else {
                let mut msg = chars_of("more than one list is called “");
                push_all(&mut msg, &name_chars);
                push_all(&mut msg, &chars_of("” — use its id from `omacal tasks lists`"));
                Err(string_of(&msg))
            }
        },
    }
}

// ------------------------------------------------------------- due dates

pub const AT_NEEDS_DUE: &'static str = "--at needs --due: a time with no day is not a due date";

pub open spec fn due_error(d: Seq<char>) -> Seq<char> {
    "--due takes YYYY-MM-DD, not \""@ + d + "\""@
}

pub open spec fn at_error(t: Seq<char>) -> Seq<char> {
    "--at takes HH:MM, not \""@ + t + "\""@
}

fn quoted_message(head: &str, word: &str) -> (r: String)
    ensures
        r@ == head@ + word@ + "\""@,
{
    let mut msg = chars_of(head);
    push_all(&mut msg, &chars_of(word));
    push_all(&mut msg, &chars_of("\""));
    string_of(&msg)
}

pub open spec fn opt_text_of(o: Option<&str>) -> Option<Seq<char>> {
    match o {
        Some(s) => Some(s@),
        None => None,
    }
}

/// How placing a day and a time in a zone comes back from [`due_at`]: the
/// instant's milliseconds and whether it is a whole day, or jiff's error.
pub open spec fn placed_outcome(p: Result<i64, Seq<char>>, all_day: bool, r: Result<(Option<i64>, bool), String>) -> bool {
    match p {
        Ok(ms) => r == Ok::<(Option<i64>, bool), String>((Some(ms), all_day)),
        Err(e) => (r matches Err(m) && m@ == e),
    }
}

/// What [`due_at`] answers for a day and an hour in `tz`.
pub open spec fn due_outcome(
    due: Option<Seq<char>>,
    at: Option<Seq<char>>,
    tz: jiff::tz::TimeZone,
    r: Result<(Option<i64>, bool), String>,
) -> bool {
    match (due, at) {
        (None, None) => r == Ok::<(Option<i64>, bool), String>((None, true)),
        (None, Some(_)) => (r matches Err(e) && e@ == AT_NEEDS_DUE@),
        (Some(d), None) => if !date_parses(d) {
            (r matches Err(e) && e@ == due_error(d))
        } else {
            placed_outcome(placed_millis(date_of(d), civil_time(0, 0, 0, 0), tz), true, r)
        },
        (Some(d), Some(t)) => if !date_parses(d) {
            (r matches Err(e) && e@ == due_error(d))
        } else if !time_parses(t) {
            (r matches Err(e) && e@ == at_error(t))
        } else {
            placed_outcome(placed_millis(date_of(d), time_of(t), tz), false, r)
        },
    }
}

/// `--due 2026-09-11` and `--at 18:00` into the instant they name in `tz`,
/// plus whether it is a whole day.
///
/// No day and no time is no due date, as a whole day. A time with no day is
/// refused rather than assumed onto today. A day that does not read as a
/// date, or an hour that does not read as a time, is refused with the word
/// it was given. A day alone is its midnight in `tz`, as a whole day; a day
/// and a time are that moment, not a whole day.
pub fn due_at(due: Option<&str>, at: Option<&str>, tz: &jiff::tz::TimeZone) -> (r: Result<(Option<i64>, bool), String>)
    ensures
        due_outcome(opt_text_of(due), opt_text_of(at), *tz, r),
{
    let date_text = match due {
        Some(d) => d,
        None => {
            return match at {
                Some(_) => Err(string_of(&chars_of(AT_NEEDS_DUE))),
                None => Ok((None, true)),
            };
        },
    };
    let date = match parse_date(date_text) {
        Some(d) => d,
        None => return Err(quoted_message("--due takes YYYY-MM-DD, not \"", date_text)),
    };
    let time_text = match at {
        Some(t) => t,
        None => {
            let start = midnight();
            return match zoned_millis(&date, &start, tz) {
                Ok(ms) => Ok((Some(ms), true)),
                Err(e) => Err(e),
            };
        },
    };
    let time = match parse_time(time_text) {
        Some(t) => t,
        None => return Err(quoted_message("--at takes HH:MM, not \"", time_text)),
    };
    match zoned_millis(&date, &time, tz) {
        Ok(ms) => Ok((Some(ms), false)),
        Err(e) => Err(e),
    }
}

/// What an `edit` asks of a task's due date, given what it named and the
/// date and `HH:MM` hour the task already has (`current`, when it has a
/// due) — as the day and hour to hand to [`due_at`], or `None` for no due
/// date at all.
///
/// `--due none` clears the date, and the time with it. A new day keeps the
/// task's hour; a new hour keeps the task's day. `--at none` keeps the day
/// and drops the hour, and an all-day task keeps having no hour. A time on
/// no day at all is refused.
pub open spec fn edit_due_plan_spec(
    due: Option<Option<Seq<char>>>,
    at: Option<Option<Seq<char>>>,
    current: Option<(Seq<char>, Seq<char>)>,
    all_day: bool,
) -> Result<Option<(Seq<char>, Option<Seq<char>>)>, Seq<char>> {
    if due == Some(None::<Seq<char>>) {
        Ok(None)
    } else {
        let date = match due {
            Some(Some(d)) => Some(d),
            _ => match current {
                Some(c) => Some(c.0),
                None => None,
            },
        };
        match date {
            None => match at {
                Some(Some(_)) => Err(AT_NEEDS_DUE@),
                _ => Ok(None),
            },
            Some(d) => {
                let time = match at {
                    Some(None) => None,
                    Some(Some(t)) => Some(t),
                    None => if all_day {
                        None
                    } else {
                        match current {
                            Some(c) => Some(c.1),
                            None => None,
                        }
                    },
                };
                Ok(Some((d, time)))
            },
        }
    }
}

/// An edit keeps the half of a due date it does not name: a new day keeps
/// a timed task's hour, a new hour keeps the task's day, `--at none` keeps
/// the day and drops the hour, and `--due none` clears both. An all-day
/// task given no hour stays without one, whatever day it is given.
pub proof fn law_an_edit_keeps_what_it_does_not_name(
    d: Seq<char>,
    t: Seq<char>,
    due: Option<Option<Seq<char>>>,
    at: Option<Option<Seq<char>>>,
    current: (Seq<char>, Seq<char>),
    all_day: bool,
)
    ensures
        edit_due_plan_spec(Some(Some(d)), None, Some(current), false) == Ok::<_, Seq<char>>(Some((d, Some(current.1)))),
        edit_due_plan_spec(None, Some(Some(t)), Some(current), all_day) == Ok::<_, Seq<char>>(Some((current.0, Some(t)))),
        edit_due_plan_spec(None, Some(None), Some(current), all_day) == Ok::<_, Seq<char>>(Some((current.0, None::<Seq<char>>))),
        edit_due_plan_spec(Some(None), at, Some(current), all_day) == Ok::<Option<(Seq<char>, Option<Seq<char>>)>, Seq<char>>(None),
        edit_due_plan_spec(due, None, Some(current), true) matches Ok(Some((_, hour))) ==> hour is None,
{
}

/// An all-day task stays all-day unless the edit names an hour: with no
/// `--at`, what the edit answers, when it answers, is a whole day (or no
/// due at all), whatever `--due` says.
pub proof fn law_an_all_day_task_stays_all_day(
    due: Option<Option<Seq<char>>>,
    current: Option<(Seq<char>, Seq<char>)>,
    tz: jiff::tz::TimeZone,
    r: Result<(Option<i64>, bool), String>,
)
    requires
        edit_outcome(due, None, current, true, tz, r),
    ensures
        r matches Ok((_, whole_day)) ==> whole_day,
{
}

pub open spec fn opt_pair_view(o: Option<(String, String)>) -> Option<(Seq<char>, Seq<char>)> {
    match o {
        Some(p) => Some((p.0@, p.1@)),
        None => None,
    }
}

pub open spec fn plan_view(r: Result<Option<(String, Option<String>)>, String>) -> Result<Option<(Seq<char>, Option<Seq<char>>)>, Seq<char>> {
    match r {
        Ok(Some(p)) => Ok(Some((p.0@, opt_str(p.1)))),
        Ok(None) => Ok(None),
        Err(e) => Err(e@),
    }
}

pub fn edit_due_plan(
    due: &Option<Option<String>>,
    at: &Option<Option<String>>,
    current: &Option<(String, String)>,
    all_day: bool,
) -> (r: Result<Option<(String, Option<String>)>, String>)
    ensures
        plan_view(r) == edit_due_plan_spec(opt_opt_str(*due), opt_opt_str(*at), opt_pair_view(*current), all_day),
{
    if let Some(None) = due {
        return Ok(None);
    }
    let date: Option<String> = match due {
        Some(Some(d)) => Some(d.clone()),
        _ => match current {
            Some(c) => Some(c.0.clone()),
            None => None,
        },
    };
    let date = match date {
        Some(d) => d,
        None => {
            return match at {
                Some(Some(_)) => Err(string_of(&chars_of(AT_NEEDS_DUE))),
                _ => Ok(None),
            };
        },
    };
    let time: Option<String> = match at {
        Some(None) => None,
        Some(Some(t)) => Some(t.clone()),
        None => if all_day {
            None
        } else {
            match current {
                Some(c) => Some(c.1.clone()),
                None => None,
            }
        },
    };
    Ok(Some((date, time)))
}

// ------------------------------------------------------------ an edit

pub open spec fn edit_fields_spec(
    task_summary: Option<Seq<char>>,
    task_notes: Option<Seq<char>>,
    title: Option<Seq<char>>,
    notes: Option<Option<Seq<char>>>,
) -> Result<(Seq<char>, Option<Seq<char>>), Seq<char>> {
    let summary = match title {
        Some(t) => t,
        None => match task_summary {
            Some(s) => s,
            None => Seq::empty(),
        },
    };
    if trim(summary).len() == 0 {
        Err(TASK_NEEDS_A_TITLE@)
    } else {
        Ok((summary, match notes {
            Some(n) => n,
            None => task_notes,
        }))
    }
}

/// The title and the note an `edit` hands to the app, which takes the
/// complete state: what the edit named, else what the task already has. A
/// title that is blank once trimmed is refused.
pub fn edit_fields(task: &StoredTask, title: &Option<String>, notes: &Option<Option<String>>) -> (r: Result<(String, Option<String>), String>)
    ensures
        match r {
            Ok((s, n)) => edit_fields_spec(opt_str(task.summary), opt_str(task.description), opt_str(*title), opt_opt_str(*notes))
                == Ok::<(Seq<char>, Option<Seq<char>>), Seq<char>>((s@, opt_str(n))),
            Err(e) => edit_fields_spec(opt_str(task.summary), opt_str(task.description), opt_str(*title), opt_opt_str(*notes))
                == Err::<(Seq<char>, Option<Seq<char>>), Seq<char>>(e@),
        },
{
    let summary: String = match title {
        Some(t) => t.clone(),
        None => match &task.summary {
            Some(s) => s.clone(),
            None => {
                let nothing: Vec<char> = Vec::new();
                string_of(&nothing)
            },
        },
    };
    if trim_exec(&chars_of(summary.as_str())).len() == 0 {
        return Err(string_of(&chars_of(TASK_NEEDS_A_TITLE)));
    }
    let note: Option<String> = match notes {
        Some(n) => match n {
            Some(v) => Some(v.clone()),
            None => None,
        },
        None => match &task.description {
            Some(d) => Some(d.clone()),
            None => None,
        },
    };
    Ok((summary, note))
}

/// What an `edit` asking `due` and `at` of a task ends in, given the day
/// and hour the task already has, with the day and hour decided on placed
/// in `tz`.
pub open spec fn edit_outcome(
    due: Option<Option<Seq<char>>>,
    at: Option<Option<Seq<char>>>,
    current: Option<(Seq<char>, Seq<char>)>,
    all_day: bool,
    tz: jiff::tz::TimeZone,
    r: Result<(Option<i64>, bool), String>,
) -> bool {
    match edit_due_plan_spec(due, at, current, all_day) {
        Ok(None) => r == Ok::<(Option<i64>, bool), String>((None, true)),
        Err(e) => (r matches Err(m) && m@ == e),
        Ok(Some((d, t))) => due_outcome(Some(d), t, tz, r),
    }
}

/// The day and `HH:MM` hour a task's due is read as, both in `tz` — except
/// the day of an all-day due on a list with a zone of its own, which is
/// read in `list_zone`, so a Sofia list's Thursday stays Thursday when read
/// from New York. A stored count outside the range of instants reads as
/// the epoch.
pub open spec fn current_due(task: StoredTask, tz: jiff::tz::TimeZone, list_zone: jiff::tz::TimeZone) -> Option<(Seq<char>, Seq<char>)> {
    match task.due_utc {
        None => None,
        Some(ms) => {
            let here = zoned_at(instant_or_epoch(ms as int), tz);
            let day_zone = if task.due_all_day && task.due_tz is Some { list_zone } else { tz };
            Some((
                day_text_of(day_of(zoned_at(instant_or_epoch(ms as int), day_zone))),
                clock_text(hour_of(here), minute_of(here)),
            ))
        },
    }
}

/// The instant a stored count of milliseconds names, the epoch for one
/// outside the range of instants.
fn instant_of(ms: i64) -> (r: jiff::Timestamp)
    ensures
        r == instant_or_epoch(ms as int),
{
    match timestamp_of(ms) {
        Ok(ts) => ts,
        Err(_) => epoch(),
    }
}

/// The due date an `edit` means, given what it named and what the task
/// already had, as [`edit_due_plan`] decides it, with the zone an all-day
/// due's day is read in given: the task's current day and hour are those
/// [`current_due`] reads, and the day and hour decided on go to [`due_at`].
pub fn resolve_edit_due_in(
    task: &StoredTask,
    due: &Option<Option<String>>,
    at: &Option<Option<String>>,
    tz: &jiff::tz::TimeZone,
    list_zone: &jiff::tz::TimeZone,
) -> (r: Result<(Option<i64>, bool), String>)
    ensures
        edit_outcome(opt_opt_str(*due), opt_opt_str(*at), current_due(*task, *tz, *list_zone), task.due_all_day, *tz, r),
{
    let current: Option<(String, String)> = match task.due_utc {
        Some(ms) => {
            let instant = instant_of(ms);
            let here = zoned(&instant, tz);
            let hour = hour_text(&here);
            let date = if task.due_all_day && task.due_tz.is_some() {
                day_text(&zoned_day(&zoned(&instant, list_zone)))
            } else {
                day_text(&zoned_day(&here))
            };
            Some((date, hour))
        },
        None => None,
    };
    assert(opt_pair_view(current) == current_due(*task, *tz, *list_zone));
    let plan = edit_due_plan(due, at, &current, task.due_all_day);
    match plan {
        Err(e) => Err(e),
        Ok(None) => Ok((None, true)),
        Ok(Some((date, time))) => {
            let time_text: Option<&str> = match &time {
                Some(t) => Some(t.as_str()),
                None => None,
            };
            due_at(Some(date.as_str()), time_text, tz)
        },
    }
}

/// The due date an `edit` means, given what it named and what the task
/// already had: the task's current day and hour are read in `tz`, except an
/// all-day due's day, which is read in its own list's zone — a zone the
/// machine does not know falls back to UTC, as the app's writes do.
///
/// Which zone the machine's database gives for the list's zone name is the
/// machine's; [`resolve_edit_due_in`] says what follows for each.
pub fn resolve_edit_due(
    task: &StoredTask,
    due: &Option<Option<String>>,
    at: &Option<Option<String>>,
    tz: &jiff::tz::TimeZone,
) -> (r: Result<(Option<i64>, bool), String>)
    ensures
        !(task.due_all_day && task.due_tz is Some) ==> edit_outcome(
            opt_opt_str(*due), opt_opt_str(*at), current_due(*task, *tz, *tz), task.due_all_day, *tz, r),
        task.due_all_day && task.due_tz is Some ==> exists|list_zone: jiff::tz::TimeZone| #[trigger] edit_outcome(
            opt_opt_str(*due), opt_opt_str(*at), current_due(*task, *tz, list_zone), task.due_all_day, *tz, r),
{
    match (task.due_all_day, &task.due_tz) {
        (true, Some(zone)) => {
            let list_zone = match zone_named(zone.as_str()) {
                Some(z) => z,
                None => utc(),
            };
            let r = resolve_edit_due_in(task, due, at, tz, &list_zone);
            assert(edit_outcome(opt_opt_str(*due), opt_opt_str(*at), current_due(*task, *tz, list_zone), task.due_all_day, *tz, r));
            r
        },
        _ => resolve_edit_due_in(task, due, at, tz, tz),
    }
}

} // verus!
