//! Which tasks are listed, and in which order.
use crate::date;
use crate::date::{add_days, date_rank, parse_date, Date};
use crate::line;
use crate::line::{find, make_word};
use crate::search;
use crate::search::subseq_match_ci;
use crate::text::chars_of;
use crate::todo;
use crate::todo::Task;
use crate::types::Sort;
use vstd::prelude::*;

verus! {

/// What the user asks to see.
#[derive(Debug)]
pub struct Filter {
    /// A fuzzy query over task bodies; empty for none.
    pub search: String,
    pub project: Option<String>,
    pub context: Option<String>,
}

#[verifier::ext_equal]
pub struct FilterView {
    pub search: Seq<char>,
    pub project: Option<Seq<char>>,
    pub context: Option<Seq<char>>,
}

impl View for Filter {
    type V = FilterView;

    open spec fn view(&self) -> FilterView {
        FilterView {
            search: self.search@,
            project: todo::opt_text(self.project),
            context: todo::opt_text(self.context),
        }
    }
}

impl Default for Filter {
    fn default() -> (r: Self)
        ensures
            r@ == (FilterView { search: Seq::empty(), project: None, context: None }),
    {
        Filter { search: String::new(), project: None, context: None }
    }
}

/// When a task is due, relative to the current day.
#[derive(Clone, Copy, Debug, PartialEq, Eq, Structural)]
pub enum ListDueBucket {
    Overdue,
    Today,
    /// Within seven days.
    ThisWeek,
    /// Within fourteen days.
    NextWeek,
    Later,
    NoDue,
}

/// The task does not count as current yet.
pub open spec fn is_future(raw: Seq<char>, today: Seq<char>) -> bool {
    match (line::threshold_in(line::parts_of(raw).body), date::date_in(today)) {
        (Some(from), Some(day)) => day.rank() < from.rank(),
        _ => false,
    }
}

/// The body has the word of a sign and a name; no name asks for nothing.
pub open spec fn has_tag(body: Seq<char>, sign: char, name: Option<Seq<char>>) -> bool {
    match name {
        Some(n) => line::find_word(body, line::tag_word(sign, n), 0, true) is Some,
        None => true,
    }
}

/// The body matches a query; no query asks for nothing.
pub open spec fn body_matches(body: Seq<char>, needle: Option<Seq<char>>) -> bool {
    match needle {
        Some(n) => search::subseq_positions(body, n) is Some,
        None => true,
    }
}

/// A line is listed.
pub open spec fn is_listed(
    raw: Seq<char>,
    show_done: bool,
    show_future: bool,
    today: Seq<char>,
    filter: FilterView,
    needle: Option<Seq<char>>,
) -> bool {
    let p = line::parts_of(raw);
    &&& show_done || !p.done
    &&& show_future || !is_future(raw, today)
    &&& has_tag(p.body, '+', filter.project)
    &&& has_tag(p.body, '@', filter.context)
    &&& body_matches(p.body, needle)
}

fn carries_tag(body: &Vec<char>, sign: char, name: &Option<String>) -> (r: bool)
    ensures
        r == has_tag(body@, sign, todo::opt_text(*name)),
{
    match name {
        Some(n) => {
            let chars: Vec<char> = chars_of(n.as_str());
            let word: Vec<char> = make_word(sign, &chars);
            find(body, &word, true).is_some()
        },
        None => true,
    }
}

/// The text of an optional query.
pub open spec fn opt_str(o: Option<&str>) -> Option<Seq<char>> {
    match o {
        Some(s) => Some(s@),
        None => None,
    }
}

/// Whether a task is listed.
pub fn list_predicate(
    task: &Task,
    show_done: bool,
    show_future: bool,
    today: &str,
    filter: &Filter,
    needle: Option<&str>,
) -> (r: bool)
    requires
        task.wf(),
    ensures
        r == is_listed(task.raw@, show_done, show_future, today@, filter@, opt_str(needle)),
{
    if task.done && !show_done {
        return false;
    }
    if !show_future {
        let day: Vec<char> = chars_of(today);
        match (task.threshold, parse_date(&day)) {
            (Some(from), Some(now)) => {
                if date_rank(now) < date_rank(from) {
                    return false;
                }
            },
            _ => {},
        }
    }
    let body: Vec<char> = chars_of(task.body.as_str());
    if !carries_tag(&body, '+', &filter.project) || !carries_tag(&body, '@', &filter.context) {
        return false;
    }
    match needle {
        Some(n) => subseq_match_ci(task.body.as_str(), n).is_some(),
        None => true,
    }
}

/// `d` is at most `n` days after `today`.
pub open spec fn within_days(d: Date, today: Date, n: int) -> bool {
    match date::plus_days(today, n) {
        Some(last) => d.rank() <= last.rank(),
        None => true,
    }
}

/// When a line is due, relative to a day.
pub open spec fn bucket_of(raw: Seq<char>, today: Seq<char>) -> ListDueBucket {
    match (line::due_in(line::parts_of(raw).body), date::date_in(today)) {
        (None, _) => ListDueBucket::NoDue,
        (Some(_), None) => ListDueBucket::Later,
        (Some(due), Some(day)) => if due.rank() < day.rank() {
            ListDueBucket::Overdue
        } else if due.rank() == day.rank() {
            ListDueBucket::Today
        } else if within_days(due, day, 7) {
            ListDueBucket::ThisWeek
        } else if within_days(due, day, 14) {
            ListDueBucket::NextWeek
        } else {
            ListDueBucket::Later
        },
    }
}

fn is_within(d: Date, today: Date, n: i64) -> (r: bool)
    requires
        d.valid(),
        today.valid(),
    ensures
        r == within_days(d, today, n as int),
{
    match add_days(today, n) {
        Some(last) => date_rank(d) <= date_rank(last),
        None => true,
    }
}

/// When a task is due, relative to a day.
pub fn due_bucket(task: &Task, today: &str) -> (r: ListDueBucket)
    requires
        task.wf(),
    ensures
        r == bucket_of(task.raw@, today@),
{
    let day: Vec<char> = chars_of(today);
    match (task.due, parse_date(&day)) {
        (None, _) => ListDueBucket::NoDue,
        (Some(_), None) => ListDueBucket::Later,
        (Some(due), Some(now)) => {
            if date_rank(due) < date_rank(now) {
                ListDueBucket::Overdue
            } else if date_rank(due) == date_rank(now) {
                ListDueBucket::Today
            } else if is_within(due, now, 7) {
                ListDueBucket::ThisWeek
            } else if is_within(due, now, 14) {
                ListDueBucket::NextWeek
            } else {
                ListDueBucket::Later
            }
        },
    }
}

/// The sort key of a line: nothing, its priority letter, or its due date;
/// lines without one go last.
pub open spec fn sort_rank(raw: Seq<char>, sort: Sort) -> u64 {
    let p = line::parts_of(raw);
    match sort {
        Sort::File => 0,
        Sort::Priority => match p.priority {
            Some(c) => c as u64,
            None => 0x110000,
        },
        Sort::Due => match line::due_in(p.body) {
            Some(d) => d.rank() as u64,
            None => 100_000_000,
        },
    }
}

/// The sort key of a task.
pub fn sort_key(task: &Task, sort: Sort) -> (r: u64)
    requires
        task.wf(),
    ensures
        r == sort_rank(task.raw@, sort),
{
    match sort {
        Sort::File => 0,
        Sort::Priority => match task.priority {
            Some(c) => c as u64,
            None => 0x110000,
        },
        Sort::Due => match task.due {
            Some(d) => date_rank(d),
            None => 100_000_000,
        },
    }
}

} // verus!
