//! Which lines are listed and where they go, said of their words and dates.
use crate::date;
use crate::date::Date;
use crate::date_laws;
use crate::filter;
use crate::filter::{FilterView, ListDueBucket};
use crate::jump_laws;
use crate::line;
use crate::line_laws;
use crate::search;
use crate::types::Sort;
use vstd::prelude::*;

verus! {

/// A body carries the tag of a name exactly when the sign and the name stand in
/// it as a word of their own.
pub proof fn tags_are_whole_words(body: Seq<char>, sign: char, name: Seq<char>)
    requires
        forall|k: int| 0 <= k < name.len() ==> !line_laws::is_white(#[trigger] name[k]),
    ensures
        filter::has_tag(body, sign, Some(name)) <==> exists|i: int| #[trigger]
            line_laws::is_word_at(body, seq![sign] + name, i),
        filter::has_tag(body, sign, None),
{
    line_laws::tags_are_made_of_sign_and_name(sign, name);
    let word = seq![sign] + name;
    line_laws::words_are_found(body, word);
    if let Some(i) = line::find_word(body, word, 0, true) {
        assert(line_laws::is_word_at(body, word, i));
    }
}

/// A line is listed exactly when nothing rules it out: that it is done where
/// done lines are not shown, that it counts only from a later day on where such
/// lines are not shown, that a word that is asked for is missing, or that the
/// query does not occur in its body.
pub proof fn listed_lines(
    raw: Seq<char>,
    show_done: bool,
    show_future: bool,
    today: Seq<char>,
    f: FilterView,
    needle: Option<Seq<char>>,
)
    ensures
        filter::is_listed(raw, show_done, show_future, today, f, needle) <==> {
            let body = line::parts_of(raw).body;
            &&& show_done || raw[3] == ' '
            &&& show_future || !(line::threshold_in(body) is Some && date::date_in(today) is Some
                && date_laws::earlier(date::date_in(today)->0, line::threshold_in(body)->0))
            &&& filter::has_tag(body, '+', f.project)
            &&& filter::has_tag(body, '@', f.context)
            &&& needle matches Some(n) ==> exists|at: Seq<int>| #[trigger]
                jump_laws::occurs_at(body, n, at)
        },
{
    let body = line::parts_of(raw).body;
    lemma_threshold_valid(body);
    if line::threshold_in(body) is Some && date::date_in(today) is Some {
        date_laws::ranks_go_by_the_calendar(
            date::date_in(today)->0,
            line::threshold_in(body)->0,
        );
    }
    if let Some(n) = needle {
        let at = jump_laws::match_is_the_first_place(body, n);
        if search::subseq_positions(body, n) is Some {
            assert(jump_laws::occurs_at(body, n, at));
        }
    }
}

proof fn lemma_threshold_valid(body: Seq<char>)
    ensures
        line::threshold_in(body) matches Some(d) ==> d.valid(),
        line::due_in(body) matches Some(d) ==> d.valid(),
{
    if let Some(v) = line::tag_value(body, line::threshold_key()) {
        if date::date_in(v) is None {
            if let (Some(by), Some(due)) = (date::span_in(v), line::due_in(body)) {
                date::shifted_is_valid(due, by);
            }
        }
    }
}

/// A later day lies within `n` days exactly when counting at most `n` days
/// leads to it.
pub proof fn days_ahead_are_counted(due: Date, today: Date, n: int)
    requires
        due.valid(),
        today.valid(),
        date_laws::earlier(today, due),
        0 <= n,
    ensures
        filter::within_days(due, today, n) <==> exists|k: int|
            1 <= k <= n && #[trigger] date::plus_days(today, k) == Some(due),
    decreases n,
{
    if n == 0 {
        date_laws::ranks_go_by_the_calendar(today, due);
    } else {
        date_laws::the_next_day_is_next(today, due);
        let next = date::day_after(today)->0;
        date_laws::days_forth_and_back(next, n - 1);
        if due == next {
            reveal_with_fuel(date::plus_days, 2);
            assert(date::plus_days(today, 1) == Some(due));
            if let Some(last) = date::plus_days(today, n) {
                assert(date::plus_days(next, n - 1) == Some(last));
                date_laws::ranks_go_by_the_calendar(due, last);
            }
        } else {
            days_ahead_are_counted(due, next, n - 1);
            assert(date::plus_days(today, n) == date::plus_days(next, n - 1));
            if exists|k: int| 1 <= k <= n - 1 && #[trigger] date::plus_days(next, k) == Some(due) {
                let k = choose|k: int|
                    1 <= k <= n - 1 && #[trigger] date::plus_days(next, k) == Some(due);
                assert(date::plus_days(today, k + 1) == Some(due));
            }
            if exists|k: int| 1 <= k <= n && #[trigger] date::plus_days(today, k) == Some(due) {
                let k = choose|k: int|
                    1 <= k <= n && #[trigger] date::plus_days(today, k) == Some(due);
                assert(date::plus_days(next, k - 1) == Some(due));
                if k == 1 {
                    assert(date::plus_days(next, 0) == Some(next));
                }
            }
        }
    }
}

/// A line is overdue before the current day, due on it, in the seven days after
/// it, in the seven days after those, or later.
pub proof fn due_lines_by_day(raw: Seq<char>, today: Seq<char>, due: Date, day: Date)
    requires
        line::due_in(line::parts_of(raw).body) == Some(due),
        date::date_in(today) == Some(day),
    ensures
        filter::bucket_of(raw, today) == ListDueBucket::Overdue <==> date_laws::earlier(due, day),
        filter::bucket_of(raw, today) == ListDueBucket::Today <==> due == day,
        filter::bucket_of(raw, today) == ListDueBucket::ThisWeek <==> exists|k: int|
            1 <= k <= 7 && #[trigger] date::plus_days(day, k) == Some(due),
        filter::bucket_of(raw, today) == ListDueBucket::NextWeek <==> exists|k: int|
            8 <= k <= 14 && #[trigger] date::plus_days(day, k) == Some(due),
        filter::bucket_of(raw, today) != ListDueBucket::NoDue,
{
    lemma_threshold_valid(line::parts_of(raw).body);
    date_laws::ranks_go_by_the_calendar(due, day);
    if date_laws::earlier(day, due) {
        days_ahead_are_counted(due, day, 7);
        days_ahead_are_counted(due, day, 14);
    }
    assert forall|k: int, j: int|
        1 <= k && 1 <= j && #[trigger] date::plus_days(day, k) == Some(due)
            && #[trigger] date::plus_days(day, j) == Some(due) implies k == j by {
        lemma_one_count(day, due, k, j);
    }
    assert forall|k: int| 1 <= k && #[trigger] date::plus_days(day, k) == Some(due) implies
        date_laws::earlier(day, due) by {
        date_laws::days_forth_and_back(day, k);
    }
    if filter::bucket_of(raw, today) == ListDueBucket::ThisWeek {
        let k = choose|k: int| 1 <= k <= 7 && #[trigger] date::plus_days(day, k) == Some(due);
        assert(date::plus_days(day, k) == Some(due));
    }
    if filter::bucket_of(raw, today) == ListDueBucket::NextWeek {
        let k = choose|k: int| 1 <= k <= 14 && #[trigger] date::plus_days(day, k) == Some(due);
        assert(k > 7);
    }
}

proof fn lemma_one_count(day: Date, due: Date, k: int, j: int)
    requires
        day.valid(),
        0 <= k,
        0 <= j,
        date::plus_days(day, k) == Some(due),
        date::plus_days(day, j) == Some(due),
    ensures
        k == j,
    decreases k,
{
    date_laws::days_forth_and_back(day, k);
    date_laws::days_forth_and_back(day, j);
    if k > 0 && j > 0 {
        date_laws::the_next_day_is_next(day, due);
        lemma_one_count(date::day_after(day)->0, due, k - 1, j - 1);
    }
}

/// Without a due date there is no day to be due on; without a current day every
/// due line is due later.
pub proof fn undated_lines_by_day(raw: Seq<char>, today: Seq<char>)
    ensures
        line::due_in(line::parts_of(raw).body) is None <==> filter::bucket_of(raw, today)
            == ListDueBucket::NoDue,
        line::due_in(line::parts_of(raw).body) is Some && date::date_in(today) is None
            ==> filter::bucket_of(raw, today) == ListDueBucket::Later,
{
}

/// Sort keys go by the priority letter or by the due date, lines without one
/// behind all others; in file order all keys are equal.
pub proof fn sort_keys_compare(a: Seq<char>, b: Seq<char>)
    ensures
        filter::sort_rank(a, Sort::File) == filter::sort_rank(b, Sort::File),
        ({
            let (p, q) = (line::parts_of(a).priority, line::parts_of(b).priority);
            &&& filter::sort_rank(a, Sort::Priority) < filter::sort_rank(b, Sort::Priority) <==> (
            p is Some && q is None || p is Some && q is Some && p->0 < q->0)
            &&& filter::sort_rank(a, Sort::Priority) == filter::sort_rank(b, Sort::Priority) <==> p
                == q
        }),
        ({
            let (d, e) = (
                line::due_in(line::parts_of(a).body),
                line::due_in(line::parts_of(b).body),
            );
            &&& filter::sort_rank(a, Sort::Due) < filter::sort_rank(b, Sort::Due) <==> (d is Some && e
                is None || d is Some && e is Some && date_laws::earlier(d->0, e->0))
            &&& filter::sort_rank(a, Sort::Due) == filter::sort_rank(b, Sort::Due) <==> d == e
        }),
{
    let d = line::due_in(line::parts_of(a).body);
    let e = line::due_in(line::parts_of(b).body);
    lemma_threshold_valid(line::parts_of(a).body);
    lemma_threshold_valid(line::parts_of(b).body);
    if d is Some && e is Some {
        date_laws::ranks_go_by_the_calendar(d->0, e->0);
    }
}

} // verus!
