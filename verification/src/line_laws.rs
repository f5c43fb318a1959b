//! What the operations on a line do to its text.
use crate::date;
use crate::date::Date;
use crate::line;
use vstd::prelude::*;

verus! {

/// A space, a tabulator or a line end.
pub open spec fn is_white(c: char) -> bool {
    c == ' ' || c == '\t' || c == '\r' || c == '\n'
}

/// A priority in front of what follows, or nothing.
pub open spec fn is_priority_mark(s: Seq<char>) -> bool {
    ||| s.len() == 0
    ||| s.len() == 4 && s[0] == '(' && 'A' <= s[1] <= 'Z' && s[2] == ')' && s[3] == ' '
}

/// The text begins with a letter in brackets and a space.
pub open spec fn begins_with_priority(s: Seq<char>) -> bool {
    s.len() >= 4 && is_priority_mark(s.take(4))
}

/// The text begins with a date and a space.
pub open spec fn begins_with_date(s: Seq<char>) -> bool {
    s.len() >= 11 && date::date_in(s.take(10)) is Some && s[10] == ' '
}

/// `mark` is all of the priority in front of `rest`.
pub open spec fn parts_at(mark: Seq<char>, rest: Seq<char>) -> bool {
    &&& is_priority_mark(mark)
    &&& mark.len() == 0 ==> !begins_with_priority(rest)
}

/// A checkbox with `tick` in it.
pub open spec fn boxed(tick: char) -> Seq<char> {
    seq!['-', ' ', '[', tick, ']', ' ']
}

proof fn lemma_head(tick: char, mark: Seq<char>, rest: Seq<char>)
    requires
        parts_at(mark, rest),
    ensures
        ({
            let s = boxed(tick) + mark + rest;
            &&& s.skip(6) == mark + rest
            &&& s[3] == tick
            &&& line::lead_priority(mark + rest) == (if mark.len() == 0 {
                None
            } else {
                Some(mark[1])
            })
            &&& line::after_priority(mark + rest) == rest
        }),
{
    let s = boxed(tick) + mark + rest;
    let head = mark + rest;
    assert(s.skip(6) =~= head);
    if mark.len() == 0 {
        assert(head =~= rest);
        if rest.len() >= 4 {
            assert(rest.take(4)[0] == rest[0]);
            assert(rest.take(4)[1] == rest[1]);
            assert(rest.take(4)[2] == rest[2]);
            assert(rest.take(4)[3] == rest[3]);
        }
    } else {
        assert(head.skip(4) =~= rest);
    }
}

proof fn lemma_dated(d: Seq<char>, rest: Seq<char>)
    requires
        date::date_in(d) is Some,
    ensures
        d.len() == 10,
        begins_with_date(d + seq![' '] + rest),
        line::lead_date(d + seq![' '] + rest) == Some(d),
        line::after_date(d + seq![' '] + rest) == rest,
{
    let s = d + seq![' '] + rest;
    assert(s.take(10) =~= d);
    assert(s.skip(11) =~= rest);
}

proof fn lemma_undated(rest: Seq<char>)
    requires
        !begins_with_date(rest),
    ensures
        line::lead_date(rest) is None,
        line::after_date(rest) == rest,
{
}

/// A line says that it is done by its tick, and its priority by the letter in
/// brackets behind the checkbox.
pub proof fn ticks_and_priorities_are_read(tick: char, mark: Seq<char>, rest: Seq<char>)
    requires
        parts_at(mark, rest),
    ensures
        line::parts_of(boxed(tick) + mark + rest).done <==> tick != ' ',
        line::parts_of(boxed(tick) + mark + rest).priority == (if mark.len() == 0 {
            None
        } else {
            Some(mark[1])
        }),
{
    lemma_head(tick, mark, rest);
}

/// The date of an open line is the day it was made; the rest is its body.
pub proof fn open_lines_are_read(mark: Seq<char>, made: Seq<char>, body: Seq<char>)
    requires
        parts_at(mark, made + seq![' '] + body),
        date::date_in(made) is Some,
    ensures
        ({
            let p = line::parts_of(boxed(' ') + mark + (made + seq![' '] + body));
            &&& p.created == Some(made)
            &&& p.done_date is None
            &&& p.body == body
        }),
{
    lemma_head(' ', mark, made + seq![' '] + body);
    lemma_dated(made, body);
}

/// An open line without a date says so.
pub proof fn undated_open_lines_are_read(mark: Seq<char>, body: Seq<char>)
    requires
        parts_at(mark, body),
        !begins_with_date(body),
    ensures
        ({
            let p = line::parts_of(boxed(' ') + mark + body);
            &&& p.created is None
            &&& p.done_date is None
            &&& p.body == body
        }),
{
    lemma_head(' ', mark, body);
    lemma_undated(body);
}

/// The first date of a ticked line is the day it was done, the second the day
/// it was made.
pub proof fn ticked_lines_are_read(
    mark: Seq<char>,
    done: Seq<char>,
    made: Seq<char>,
    body: Seq<char>,
)
    requires
        parts_at(mark, done + seq![' '] + (made + seq![' '] + body)),
        date::date_in(done) is Some,
        date::date_in(made) is Some,
    ensures
        ({
            let p = line::parts_of(
                boxed('x') + mark + (done + seq![' '] + (made + seq![' '] + body)),
            );
            &&& p.done_date == Some(done)
            &&& p.created == Some(made)
            &&& p.body == body
        }),
{
    lemma_head('x', mark, done + seq![' '] + (made + seq![' '] + body));
    lemma_dated(done, made + seq![' '] + body);
    lemma_dated(made, body);
}

/// A single date of a ticked line is the day it was done.
pub proof fn once_dated_ticked_lines_are_read(mark: Seq<char>, done: Seq<char>, body: Seq<char>)
    requires
        parts_at(mark, done + seq![' '] + body),
        date::date_in(done) is Some,
        !begins_with_date(body),
    ensures
        ({
            let p = line::parts_of(boxed('x') + mark + (done + seq![' '] + body));
            &&& p.done_date == Some(done)
            &&& p.created is None
            &&& p.body == body
        }),
{
    lemma_head('x', mark, done + seq![' '] + body);
    lemma_dated(done, body);
    lemma_undated(body);
}

/// A ticked line without a date says so.
pub proof fn undated_ticked_lines_are_read(mark: Seq<char>, body: Seq<char>)
    requires
        parts_at(mark, body),
        !begins_with_date(body),
    ensures
        ({
            let p = line::parts_of(boxed('x') + mark + body);
            &&& p.done_date is None
            &&& p.created is None
            &&& p.body == body
        }),
{
    lemma_head('x', mark, body);
    lemma_undated(body);
}

proof fn lemma_open_parts(mark: Seq<char>, rest: Seq<char>)
    requires
        parts_at(mark, rest),
    ensures
        ({
            let p = line::parts_of(boxed(' ') + mark + rest);
            &&& line::priority_text(p.priority) == mark
            &&& line::date_part(p.created) + p.body == rest
            &&& p.done_date is None
        }),
{
    lemma_head(' ', mark, rest);
    let p = line::parts_of(boxed(' ') + mark + rest);
    assert(line::priority_text(p.priority) =~= mark);
    assert(line::date_part(p.created) + p.body =~= rest);
}

/// Ticking a line off changes the box, and puts the day behind the priority
/// when it is a date; all else stays.
pub proof fn completing_ticks_and_dates(mark: Seq<char>, rest: Seq<char>, today: Seq<char>)
    requires
        parts_at(mark, rest),
    ensures
        line::completed(boxed(' ') + mark + rest, today) == (if date::date_in(today) is Some {
            boxed('x') + mark + today + seq![' '] + rest
        } else {
            boxed('x') + mark + rest
        }),
{
    let s = boxed(' ') + mark + rest;
    let p = line::parts_of(s);
    lemma_open_parts(mark, rest);
    assert(line::checkbox(true) =~= boxed('x'));
    let q = line::PartsView { done: true, done_date: line::stamp(today), ..p };
    lemma_line_joined(q);
    if date::date_in(today) is Some {
        lemma_dated_rest(boxed('x') + mark, today, rest);
    } else {
        lemma_empty_front(rest);
    }
}

/// A line with what stands behind its dates taken together.
proof fn lemma_line_joined(p: line::PartsView)
    ensures
        line::line_of(p) == line::checkbox(p.done) + line::priority_text(p.priority) + (
        line::date_part(p.done_date) + (line::date_part(p.created) + p.body)),
{
    lemma_joined_behind(
        line::checkbox(p.done),
        line::priority_text(p.priority),
        line::date_part(p.done_date),
        line::date_part(p.created),
        p.body,
    );
}

proof fn lemma_joined_behind(a: Seq<char>, b: Seq<char>, c: Seq<char>, d: Seq<char>, e: Seq<char>)
    ensures
        a + b + c + d + e == a + b + (c + (d + e)),
{
    assert(a + b + c + d + e =~= a + b + (c + (d + e)));
}

proof fn lemma_dated_rest(front: Seq<char>, day: Seq<char>, rest: Seq<char>)
    ensures
        front + (line::date_part(Some(day)) + rest) == front + day + seq![' '] + rest,
{
    assert(front + (day.push(' ') + rest) =~= front + day + seq![' '] + rest);
}

proof fn lemma_empty_front(rest: Seq<char>)
    ensures
        line::date_part(None) + rest == rest,
{
    assert(Seq::<char>::empty() + rest =~= rest);
}

/// Opening a line again takes out the tick and the day it was done; all else
/// stays.
pub proof fn reopening_takes_out_tick_and_date(mark: Seq<char>, done: Seq<char>, rest: Seq<char>)
    requires
        parts_at(mark, done + seq![' '] + rest),
        date::date_in(done) is Some,
    ensures
        line::reopened(boxed('x') + mark + (done + seq![' '] + rest)) == boxed(' ') + mark + rest,
{
    let s = boxed('x') + mark + (done + seq![' '] + rest);
    lemma_head('x', mark, done + seq![' '] + rest);
    lemma_dated(done, rest);
    let p = line::parts_of(s);
    assert(line::priority_text(p.priority) =~= mark);
    assert(line::date_part(p.created) + p.body =~= rest);
    assert(line::checkbox(false) =~= boxed(' '));
    lemma_line_joined(line::PartsView { done: false, done_date: None, ..p });
    lemma_empty_front(rest);
}

/// A ticked line that does not say when it was done only loses its tick.
pub proof fn reopening_an_undated_line(mark: Seq<char>, rest: Seq<char>)
    requires
        parts_at(mark, rest),
        !begins_with_date(rest),
    ensures
        line::reopened(boxed('x') + mark + rest) == boxed(' ') + mark + rest,
{
    let s = boxed('x') + mark + rest;
    lemma_head('x', mark, rest);
    lemma_undated(rest);
    let p = line::parts_of(s);
    assert(line::priority_text(p.priority) =~= mark);
    assert(line::checkbox(false) =~= boxed(' '));
    lemma_line_joined(line::PartsView { done: false, done_date: None, ..p });
    lemma_empty_front(rest);
}

/// Every line is a box, a priority mark and a rest.
pub proof fn every_line_has_a_mark(s: Seq<char>) -> (cut: (Seq<char>, Seq<char>))
    requires
        line::canonical(s),
    ensures
        parts_at(cut.0, cut.1),
        s == boxed(s[3]) + cut.0 + cut.1,
        s[3] == ' ' || s[3] == 'x',
{
    let head = s.skip(6);
    if begins_with_priority(head) {
        let cut = (head.take(4), head.skip(4));
        assert(s =~= boxed(s[3]) + cut.0 + cut.1);
        cut
    } else {
        let cut = (Seq::<char>::empty(), head);
        assert(s =~= boxed(s[3]) + cut.0 + cut.1);
        cut
    }
}

/// Opening a line again, after it was ticked off on a day, gives the line back.
pub proof fn reopening_undoes_completing(s: Seq<char>, today: Seq<char>)
    requires
        line::canonical(s),
        s[3] == ' ',
        date::date_in(today) is Some,
    ensures
        line::reopened(line::completed(s, today)) == s,
{
    let (mark, rest) = every_line_has_a_mark(s);
    completing_ticks_and_dates(mark, rest, today);
    let behind = today + seq![' '] + rest;
    assert(boxed('x') + mark + today + seq![' '] + rest =~= boxed('x') + mark + behind);
    lemma_dated(today, rest);
    if mark.len() == 0 && begins_with_priority(behind) {
        assert(behind.take(4)[0] == today[0]);
        assert(date::is_digit(today.take(4)[0]));
    }
    reopening_takes_out_tick_and_date(mark, today, rest);
}

/// A line that was ticked off has the tick.
pub proof fn completed_lines_are_ticked(s: Seq<char>, today: Seq<char>)
    requires
        line::canonical(s),
        s[3] == ' ',
    ensures
        line::completed(s, today).len() > 3,
        line::completed(s, today)[3] == 'x',
{
    let (mark, rest) = every_line_has_a_mark(s);
    completing_ticks_and_dates(mark, rest, today);
}

/// The next priority of a line: none, A, B, C and none again; any other letter
/// goes too. All else of the line stays.
pub proof fn priorities_go_round(tick: char, rest: Seq<char>, letter: char)
    requires
        tick == ' ' || tick == 'x',
        'A' <= letter <= 'Z',
    ensures
        !begins_with_priority(rest) ==> line::reprioritized(boxed(tick) + rest) == boxed(tick)
            + seq!['(', 'A', ')', ' '] + rest,
        line::reprioritized(boxed(tick) + seq!['(', letter, ')', ' '] + rest) == (if letter == 'A' {
            boxed(tick) + seq!['(', 'B', ')', ' '] + rest
        } else if letter == 'B' {
            boxed(tick) + seq!['(', 'C', ')', ' '] + rest
        } else {
            boxed(tick) + rest
        }),
{
    if !begins_with_priority(rest) {
        let none = Seq::<char>::empty();
        assert(boxed(tick) + none + rest =~= boxed(tick) + rest);
        lemma_new_mark(tick, none, rest, Some('A'));
    }
    let mark = seq!['(', letter, ')', ' '];
    if letter == 'A' {
        lemma_new_mark(tick, mark, rest, Some('B'));
    } else if letter == 'B' {
        lemma_new_mark(tick, mark, rest, Some('C'));
    } else {
        lemma_new_mark(tick, mark, rest, None);
        assert(boxed(tick) + line::priority_text(None) + rest =~= boxed(tick) + rest);
    }
}

proof fn lemma_new_mark(tick: char, mark: Seq<char>, rest: Seq<char>, next: Option<char>)
    requires
        parts_at(mark, rest),
        tick == ' ' || tick == 'x',
        next == line::priority_after(
            if mark.len() == 0 {
                None
            } else {
                Some(mark[1])
            },
        ),
    ensures
        line::reprioritized(boxed(tick) + mark + rest) == boxed(tick) + line::priority_text(next)
            + rest,
{
    lemma_any_parts(tick, mark, rest);
    let s = boxed(tick) + mark + rest;
    let p = line::parts_of(s);
    lemma_joined(
        line::checkbox(p.done),
        line::priority_text(next),
        line::date_part(p.done_date),
        line::date_part(p.created),
        p.body,
    );
}

proof fn lemma_joined(a: Seq<char>, b: Seq<char>, c: Seq<char>, d: Seq<char>, e: Seq<char>)
    ensures
        a + b + c + d + e == a + b + (c + d + e),
{
    assert(a + b + c + d + e =~= a + b + (c + d + e));
}

proof fn lemma_any_parts(tick: char, mark: Seq<char>, rest: Seq<char>)
    requires
        parts_at(mark, rest),
        tick == ' ' || tick == 'x',
    ensures
        ({
            let s = boxed(tick) + mark + rest;
            let p = line::parts_of(s);
            &&& p.priority == (if mark.len() == 0 {
                None
            } else {
                Some(mark[1])
            })
            &&& line::checkbox(p.done) == boxed(tick)
            &&& line::date_part(p.done_date) + line::date_part(p.created) + p.body == rest
        }),
{
    let s = boxed(tick) + mark + rest;
    lemma_head(tick, mark, rest);
    let p = line::parts_of(s);
    assert(line::checkbox(p.done) =~= boxed(tick));
    let second = line::after_date(rest);
    assert(rest =~= line::date_part(line::lead_date(rest)) + second);
    assert(second =~= line::date_part(line::lead_date(second)) + line::after_date(second));
    assert(line::date_part(p.done_date) + line::date_part(p.created) + p.body =~= rest);
}

proof fn lemma_step_none(tick: char, rest: Seq<char>, s: Seq<char>, a: Seq<char>)
    requires
        tick == ' ' || tick == 'x',
        !begins_with_priority(rest),
        s == boxed(tick) + rest,
        a == boxed(tick) + seq!['(', 'A', ')', ' '] + rest,
    ensures
        line::reprioritized(s) == a,
{
    priorities_go_round(tick, rest, 'A');
}

proof fn lemma_step_letter(tick: char, rest: Seq<char>, letter: char, s: Seq<char>, t: Seq<char>)
    requires
        tick == ' ' || tick == 'x',
        letter == 'A' || letter == 'B' || letter == 'C',
        s == boxed(tick) + seq!['(', letter, ')', ' '] + rest,
        letter == 'A' ==> t == boxed(tick) + seq!['(', 'B', ')', ' '] + rest,
        letter == 'B' ==> t == boxed(tick) + seq!['(', 'C', ')', ' '] + rest,
        letter == 'C' ==> t == boxed(tick) + rest,
    ensures
        line::reprioritized(s) == t,
{
    priorities_go_round(tick, rest, letter);
}

/// Four steps through the priorities lead back to a line without one.
pub proof fn four_steps_through_the_priorities(s: Seq<char>) -> (between: (
    Seq<char>,
    Seq<char>,
    Seq<char>,
))
    requires
        line::canonical(s),
        !begins_with_priority(s.skip(6)),
    ensures
        line::reprioritized(s) == between.0,
        line::reprioritized(between.0) == between.1,
        line::reprioritized(between.1) == between.2,
        line::reprioritized(between.2) == s,
{
    let tick = s[3];
    let rest = s.skip(6);
    assert(s =~= boxed(tick) + rest);
    let a = boxed(tick) + seq!['(', 'A', ')', ' '] + rest;
    let b = boxed(tick) + seq!['(', 'B', ')', ' '] + rest;
    let c = boxed(tick) + seq!['(', 'C', ')', ' '] + rest;
    lemma_step_none(tick, rest, s, a);
    lemma_step_letter(tick, rest, 'A', a, b);
    lemma_step_letter(tick, rest, 'B', b, c);
    lemma_step_letter(tick, rest, 'C', c, s);
    (a, b, c)
}

/// Other parts stay under a new priority.
pub proof fn a_new_priority_keeps_the_rest(s: Seq<char>)
    requires
        line::canonical(s),
    ensures
        ({
            let t = line::reprioritized(s);
            let (p, q) = (line::parts_of(s), line::parts_of(t));
            p.priority == Some('A') || p.priority == Some('B') || p.priority is None ==> {
                &&& q.done == p.done
                &&& q.done_date == p.done_date
                &&& q.created == p.created
                &&& q.body == p.body
                &&& q.priority == (if p.priority is None {
                    Some('A')
                } else if p.priority == Some('A') {
                    Some('B')
                } else {
                    Some('C')
                })
            }
        }),
{
    let (mark, rest) = every_line_has_a_mark(s);
    let tick = s[3];
    lemma_any_parts(tick, mark, rest);
    let p = line::parts_of(s);
    if p.priority == Some('A') || p.priority == Some('B') || p.priority is None {
        let next = if p.priority is None {
            'A'
        } else if p.priority == Some('A') {
            'B'
        } else {
            'C'
        };
        let new = seq!['(', next, ')', ' '];
        if mark.len() == 0 {
            assert(boxed(tick) + mark + rest =~= boxed(tick) + rest);
            priorities_go_round(tick, rest, 'A');
        } else {
            assert(mark =~= seq!['(', mark[1], ')', ' ']);
            priorities_go_round(tick, rest, mark[1]);
        }
        assert(line::reprioritized(s) == boxed(tick) + new + rest);
        lemma_head(tick, mark, rest);
        lemma_head(tick, new, rest);
    }
}

// ---- words ----

/// What stands in front of a due date.
pub open spec fn due_mark() -> Seq<char> {
    seq!['d', 'u', 'e', ':']
}

/// `word` stands in `body` from `i` on, between spaces or the ends.
pub open spec fn is_word_at(body: Seq<char>, word: Seq<char>, i: int) -> bool {
    &&& 0 <= i && i + word.len() <= body.len()
    &&& forall|k: int| 0 <= k < word.len() ==> body[i + k] == #[trigger] word[k]
    &&& i == 0 || body[i - 1] == ' '
    &&& i + word.len() == body.len() || body[i + word.len()] == ' '
}

/// A word that begins with `key` stands in `body` from `i` on.
pub open spec fn begins_word_at(body: Seq<char>, key: Seq<char>, i: int) -> bool {
    &&& 0 <= i && i + key.len() <= body.len()
    &&& forall|k: int| 0 <= k < key.len() ==> body[i + k] == #[trigger] key[k]
    &&& i == 0 || body[i - 1] == ' '
}

proof fn lemma_word_here(body: Seq<char>, key: Seq<char>, i: int)
    ensures
        line::word_at(body, key, i, true) <==> is_word_at(body, key, i),
        line::word_at(body, key, i, false) <==> begins_word_at(body, key, i),
{
    if 0 <= i && i + key.len() <= body.len() {
        let part = body.subrange(i, i + key.len());
        if part == key {
            assert forall|k: int| 0 <= k < key.len() implies body[i + k] == #[trigger] key[k] by {
                assert(part[k] == body[i + k]);
            }
        }
        if forall|k: int| 0 <= k < key.len() ==> body[i + k] == #[trigger] key[k] {
            assert(part =~= key);
        }
    }
}

proof fn lemma_finds_first(body: Seq<char>, key: Seq<char>, from: int, whole: bool)
    requires
        0 <= from,
    ensures
        match line::find_word(body, key, from, whole) {
            Some(i) => from <= i < body.len() && line::word_at(body, key, i, whole) && forall|j: int|
                from <= j < i ==> !#[trigger] line::word_at(body, key, j, whole),
            None => forall|j: int|
                from <= j < body.len() ==> !#[trigger] line::word_at(body, key, j, whole),
        },
    decreases body.len() - from,
{
    if from < body.len() && !line::word_at(body, key, from, whole) {
        lemma_finds_first(body, key, from + 1, whole);
    }
}

/// A whole word is found exactly where it first stands between spaces or the
/// ends.
pub proof fn words_are_found(body: Seq<char>, word: Seq<char>)
    requires
        word.len() > 0,
    ensures
        match line::find_word(body, word, 0, true) {
            Some(i) => is_word_at(body, word, i) && forall|j: int|
                0 <= j < i ==> !#[trigger] is_word_at(body, word, j),
            None => forall|j: int| !#[trigger] is_word_at(body, word, j),
        },
{
    lemma_finds_first(body, word, 0, true);
    assert forall|j: int| #[trigger] is_word_at(body, word, j) == line::word_at(
        body,
        word,
        j,
        true,
    ) by {
        lemma_word_here(body, word, j);
    }
}

/// The value of a tag is the rest of the first word that begins with its key.
pub proof fn tags_are_read(body: Seq<char>, key: Seq<char>) -> (at: int)
    requires
        key.len() > 0,
    ensures
        match line::tag_value(body, key) {
            Some(v) => {
                &&& begins_word_at(body, key, at)
                &&& forall|j: int| 0 <= j < at ==> !#[trigger] begins_word_at(body, key, j)
                &&& at + key.len() + v.len() <= body.len()
                &&& forall|k: int|
                    0 <= k < v.len() ==> #[trigger] v[k] == body[at + key.len() + k] && v[k] != ' '
                &&& at + key.len() + v.len() == body.len() || body[at + key.len() + v.len() as int]
                    == ' '
            },
            None => forall|j: int| !#[trigger] begins_word_at(body, key, j),
        },
{
    lemma_finds_first(body, key, 0, false);
    assert forall|j: int| #[trigger] begins_word_at(body, key, j) == line::word_at(
        body,
        key,
        j,
        false,
    ) by {
        lemma_word_here(body, key, j);
    }
    match line::find_word(body, key, 0, false) {
        Some(i) => {
            assert(begins_word_at(body, key, i));
            lemma_word_ends(body, i + key.len());
            i
        },
        None => 0,
    }
}

proof fn lemma_word_ends(body: Seq<char>, i: int)
    requires
        0 <= i <= body.len(),
    ensures
        i <= line::word_end(body, i) <= body.len(),
        forall|k: int| i <= k < line::word_end(body, i) ==> #[trigger] body[k] != ' ',
        line::word_end(body, i) < body.len() ==> body[line::word_end(body, i)] == ' ',
    decreases body.len() - i,
{
    if i < body.len() && body[i] != ' ' {
        lemma_word_ends(body, i + 1);
    }
}

/// What the due tag of a body says: the first word that begins with `due:`
/// decides, and says a date or nothing.
pub proof fn due_dates_are_read(body: Seq<char>) -> (at: int)
    ensures
        match line::due_in(body) {
            Some(d) => begins_word_at(body, due_mark(), at) && at + 14 <= body.len()
                && date::date_in(body.subrange(at + 4, at + 14)) == Some(d) && (at + 14
                == body.len() || body[at + 14] == ' ') && forall|j: int|
                0 <= j < at ==> !#[trigger] begins_word_at(body, due_mark(), j),
            None => (forall|j: int| !#[trigger] begins_word_at(body, due_mark(), j))
                || (begins_word_at(body, due_mark(), at) && !(at + 14 <= body.len()
                && date::date_in(body.subrange(at + 4, at + 14)) is Some && (at + 14 == body.len()
                || body[at + 14] == ' '))),
        },
{
    let key = due_mark();
    assert(line::due_key() =~= key);
    let at = tags_are_read(body, key);
    if let Some(v) = line::tag_value(body, key) {
        if at + 14 <= body.len() {
            let w = body.subrange(at + 4, at + 14);
            if v.len() == 10 {
                assert(v =~= w);
            }
            if date::date_in(w) is Some && (at + 14 == body.len() || body[at + 14] == ' ') {
                assert forall|k: int| 0 <= k < 10 implies #[trigger] w[k] != ' ' by {
                    lemma_no_space(w, k);
                }
                if v.len() < 10 {
                    assert(w[v.len() as int] == ' ');
                }
                if v.len() > 10 {
                    assert(v[10] == body[at + 4 + 10]);
                }
            }
        }
        if date::date_in(v) is Some {
            assert(v.len() == 10);
        }
    }
    at
}

proof fn lemma_no_space(w: Seq<char>, k: int)
    requires
        date::date_in(w) is Some,
        0 <= k < 10,
    ensures
        w[k] != ' ',
{
    if k < 4 {
        assert(date::is_digit(w.take(4)[k]));
    } else if 5 <= k < 7 {
        assert(date::is_digit(w.subrange(5, 7)[k - 5]));
    } else if 8 <= k {
        assert(date::is_digit(w.subrange(8, 10)[k - 8]));
    }
}

/// The day from which a task counts: the date behind `t:`, or the due date
/// moved by the span behind it.
pub proof fn thresholds_are_read(body: Seq<char>, v: Seq<char>)
    ensures
        line::tag_value(body, seq!['t', ':']) is None ==> line::threshold_in(body) is None,
        line::tag_value(body, seq!['t', ':']) == Some(v) ==> {
            &&& date::date_in(v) is Some ==> line::threshold_in(body) == date::date_in(v)
            &&& date::date_in(v) is None ==> match (date::span_in(v), line::due_in(body)) {
                (Some(by), Some(due)) => line::threshold_in(body) == date::shifted(due, by),
                _ => line::threshold_in(body) is None,
            }
        },
{
    assert(line::threshold_key() =~= seq!['t', ':']);
}

/// A task recurs exactly when it has a due date and a span behind `rec:` that
/// leads into the future; the next due date is the span after the old one when
/// it is written with a plus, and after the current day otherwise.
pub proof fn recurrence_moves_the_due_date(body: Seq<char>, today: Seq<char>, v: Seq<char>)
    requires
        line::tag_value(body, seq!['r', 'e', 'c', ':']) == Some(v),
    ensures
        match (date::span_in(v), line::due_in(body)) {
            (Some(by), Some(due)) => {
                &&& by.count <= 0 ==> line::next_due(body, today) is None
                &&& by.count > 0 && v[0] == '+' ==> line::next_due(body, today) == date::shifted(
                    due,
                    by,
                )
                &&& by.count > 0 && v[0] != '+' ==> match date::date_in(today) {
                    Some(day) => line::next_due(body, today) == date::shifted(day, by),
                    None => line::next_due(body, today) == date::shifted(due, by),
                }
            },
            _ => line::next_due(body, today) is None,
        },
{
    assert(line::rec_key() =~= seq!['r', 'e', 'c', ':']);
}

/// A task without a `rec:` tag does not recur.
pub proof fn tasks_without_the_tag_do_not_recur(body: Seq<char>, today: Seq<char>)
    requires
        line::tag_value(body, seq!['r', 'e', 'c', ':']) is None,
    ensures
        line::next_due(body, today) is None,
{
    assert(line::rec_key() =~= seq!['r', 'e', 'c', ':']);
}

/// A new due date takes the place of the old value; the text in front of it and
/// behind it stays.
pub proof fn a_new_due_date_replaces_the_old(body: Seq<char>, due: Date) -> (cut: (int, int))
    requires
        line::tag_value(body, due_mark()) is Some,
    ensures
        0 <= cut.0 <= cut.1 <= body.len(),
        ({
            let old = line::tag_value(body, due_mark())->0;
            &&& cut.0 >= 4
            &&& begins_word_at(body, due_mark(), cut.0 - 4)
            &&& forall|j: int|
                0 <= j < cut.0 - 4 ==> !#[trigger] begins_word_at(body, due_mark(), j)
            &&& body.subrange(cut.0, cut.1) == old
            &&& line::with_due(body, due) == body.take(cut.0) + date::date_text(due) + body.skip(
                cut.1,
            )
        }),
{
    let key = due_mark();
    assert(line::due_key() =~= key);
    let at = tags_are_read(body, key);
    lemma_finds_first(body, key, 0, false);
    let i = line::find_word(body, key, 0, false)->0;
    lemma_word_here(body, key, i);
    assert forall|j: int| 0 <= j < i implies !#[trigger] begins_word_at(body, key, j) by {
        lemma_word_here(body, key, j);
        assert(!line::word_at(body, key, j, false));
    }
    lemma_word_ends(body, i + 4);
    (i + 4, line::word_end(body, i + 4))
}

/// The next occurrence is an open line of the same priority, made on the
/// current day, whose body has the next due date and is otherwise the same.
pub proof fn the_next_occurrence_is_open(mark: Seq<char>, rest: Seq<char>, today: Seq<char>)
    requires
        parts_at(mark, rest),
    ensures
        ({
            let s = boxed(' ') + mark + rest;
            let body = line::parts_of(s).body;
            match line::next_due(body, today) {
                Some(due) => line::next_occurrence(s, today) == Some(
                    if date::date_in(today) is Some {
                        boxed(' ') + mark + today + seq![' '] + line::with_due(body, due)
                    } else {
                        boxed(' ') + mark + line::with_due(body, due)
                    },
                ),
                None => line::next_occurrence(s, today) is None,
            }
        }),
{
    let s = boxed(' ') + mark + rest;
    let p = line::parts_of(s);
    lemma_open_parts(mark, rest);
    if let Some(due) = line::next_due(p.body, today) {
        let body = line::with_due(p.body, due);
        assert(line::checkbox(false) =~= boxed(' '));
        lemma_line_joined(
            line::PartsView {
                done: false,
                done_date: None,
                created: line::stamp(today),
                body,
                ..p
            },
        );
        lemma_empty_front(line::date_part(line::stamp(today)) + body);
        if date::date_in(today) is Some {
            lemma_dated_rest(boxed(' ') + mark, today, body);
        } else {
            lemma_empty_front(body);
        }
    }
}

// ---- texts ----

/// A cleaned text is the part of it between the first and the last character
/// that is not white, with every line break a space.
pub proof fn cleaning_cuts_the_ends(s: Seq<char>) -> (cut: (int, int))
    ensures
        0 <= cut.0 <= cut.1 <= s.len(),
        line::clean(s).len() == cut.1 - cut.0,
        forall|k: int|
            0 <= k < cut.1 - cut.0 ==> #[trigger] line::clean(s)[k] == (if s[cut.0 + k] == '\n' {
                ' '
            } else {
                s[cut.0 + k]
            }),
        forall|k: int| 0 <= k < cut.0 ==> is_white(#[trigger] s[k]),
        forall|k: int| cut.1 <= k < s.len() ==> is_white(#[trigger] s[k]),
        cut.0 < cut.1 ==> !is_white(s[cut.0]) && !is_white(s[cut.1 - 1]),
{
    let flat = s.map_values(
        |c: char|
            if c == '\n' {
                ' '
            } else {
                c
            },
    );
    let a = lemma_cut_front(flat);
    let t = line::trim_start(flat);
    let b = lemma_cut_back(t);
    assert forall|k: int| 0 <= k < a implies is_white(#[trigger] s[k]) by {
        assert(is_white(flat[k]));
    }
    assert forall|k: int| a + b <= k < s.len() implies is_white(#[trigger] s[k]) by {
        assert(is_white(t[k - a]));
        assert(t[k - a] == flat[k]);
    }
    if b > 0 {
        assert(t[0] == flat[a]);
        assert(t[b - 1] == flat[a + b - 1]);
    }
    (a, a + b)
}

proof fn lemma_cut_front(s: Seq<char>) -> (a: int)
    ensures
        0 <= a <= s.len(),
        line::trim_start(s) == s.skip(a),
        forall|k: int| 0 <= k < a ==> is_white(#[trigger] s[k]),
        a < s.len() ==> !is_white(s[a]),
    decreases s.len(),
{
    if s.len() > 0 && line::is_blank(s[0]) {
        let t = s.drop_first();
        let a = lemma_cut_front(t);
        assert(s.skip(a + 1) =~= t.skip(a));
        assert forall|k: int| 0 <= k < a + 1 implies is_white(#[trigger] s[k]) by {
            if k > 0 {
                assert(t[k - 1] == s[k]);
            }
        }
        a + 1
    } else {
        assert(s.skip(0) =~= s);
        0
    }
}

proof fn lemma_cut_back(s: Seq<char>) -> (b: int)
    ensures
        0 <= b <= s.len(),
        line::trim_end(s) == s.take(b),
        forall|k: int| b <= k < s.len() ==> is_white(#[trigger] s[k]),
        b > 0 ==> !is_white(s[b - 1]),
    decreases s.len(),
{
    if s.len() > 0 && line::is_blank(s.last()) {
        let t = s.drop_last();
        let b = lemma_cut_back(t);
        assert(s.take(b) =~= t.take(b));
        assert forall|k: int| b <= k < s.len() implies is_white(#[trigger] s[k]) by {
            if k < s.len() - 1 {
                assert(t[k] == s[k]);
            }
        }
        b
    } else {
        assert(s.take(s.len() as int) =~= s);
        s.len() as int
    }
}

/// A text without a checkbox becomes an open task; one with a checkbox keeps
/// it, a tick being written as a small letter.
pub proof fn texts_become_tasks(s: Seq<char>)
    ensures
        !(s.len() >= 6 && (s.take(6) == boxed(' ') || s.take(6) == boxed('x') || s.take(6) == boxed(
            'X',
        ))) ==> line::normal_line(s) == boxed(' ') + s,
        s.len() >= 6 && (s.take(6) == boxed(' ') || s.take(6) == boxed('x')) ==> line::normal_line(s)
            == s,
        s.len() >= 6 && s.take(6) == boxed('X') ==> line::normal_line(s) == boxed('x') + s.skip(6),
{
    assert(line::checkbox(false) =~= boxed(' '));
    assert(line::checkbox(true) =~= boxed('x'));
    if s.len() >= 6 {
        let t = s.take(6);
        assert(t[0] == s[0] && t[1] == s[1] && t[2] == s[2] && t[3] == s[3] && t[4] == s[4] && t[5]
            == s[5]);
        if line::has_box(s) {
            assert(t =~= boxed(s[3]));
            assert(s =~= boxed(s[3]) + s.skip(6));
        }
    }
}

/// The word of a sign and a name is the sign and what is not white of the name.
pub proof fn tags_are_made_of_sign_and_name(sign: char, name: Seq<char>)
    ensures
        line::tag_word(sign, name).len() >= 1,
        line::tag_word(sign, name)[0] == sign,
        forall|k: int|
            1 <= k < line::tag_word(sign, name).len() ==> !is_white(
                #[trigger] line::tag_word(sign, name)[k],
            ) && name.contains(line::tag_word(sign, name)[k]),
        (forall|k: int| 0 <= k < name.len() ==> !is_white(#[trigger] name[k])) ==> line::tag_word(
            sign,
            name,
        ) == seq![sign] + name,
        (exists|k: int| 0 <= k < name.len() && !is_white(#[trigger] name[k])) <==> line::tag_word(
            sign,
            name,
        ).len() > 1,
{
    let keep = |c: char| !line::is_blank(c);
    let kept = name.filter(keep);
    lemma_filter(name, keep);
    let word = line::tag_word(sign, name);
    assert(word =~= seq![sign] + kept);
    assert forall|k: int| 1 <= k < word.len() implies !is_white(#[trigger] word[k])
        && name.contains(word[k]) by {
        assert(word[k] == kept[k - 1]);
    }
    if exists|k: int| 0 <= k < name.len() && !is_white(#[trigger] name[k]) {
        let k = choose|k: int| 0 <= k < name.len() && !is_white(#[trigger] name[k]);
        assert(keep(name[k]));
    }
    if word.len() > 1 {
        assert(name.contains(word[1]));
        let k = choose|k: int| 0 <= k < name.len() && name[k] == word[1];
        assert(!is_white(name[k]));
    }
}

/// A white character of a name does not show in its word, and any other stands
/// where it stood.
pub proof fn white_characters_do_not_show(sign: char, a: Seq<char>, c: char, b: Seq<char>)
    ensures
        is_white(c) ==> line::tag_word(sign, a + seq![c] + b) == line::tag_word(sign, a + b),
        !is_white(c) ==> line::tag_word(sign, a.push(c)) == line::tag_word(sign, a) + seq![c],
{
    let keep = |x: char| !line::is_blank(x);
    let one = seq![c];
    Seq::filter_distributes_over_add(a, one + b, keep);
    Seq::filter_distributes_over_add(one, b, keep);
    Seq::filter_distributes_over_add(a, b, keep);
    Seq::filter_distributes_over_add(a, one, keep);
    assert(a + one + b =~= a + (one + b));
    assert(a.push(c) =~= a + one);
    assert(one.drop_last() =~= Seq::<char>::empty());
    reveal(Seq::filter);
    assert(one.drop_last().filter(keep) =~= Seq::<char>::empty());
    if is_white(c) {
        assert(one.filter(keep) =~= Seq::<char>::empty());
        assert(line::tag_word(sign, a + one + b) =~= line::tag_word(sign, a + b));
    } else {
        assert(one.filter(keep) =~= one);
        assert(line::tag_word(sign, a.push(c)) =~= line::tag_word(sign, a) + one);
    }
}

proof fn lemma_filter(name: Seq<char>, keep: spec_fn(char) -> bool)
    ensures
        forall|k: int|
            0 <= k < name.filter(keep).len() ==> keep(#[trigger] name.filter(keep)[k])
                && name.contains(name.filter(keep)[k]),
        (forall|k: int| 0 <= k < name.len() ==> keep(#[trigger] name[k])) ==> name.filter(keep)
            == name,
        (exists|k: int| 0 <= k < name.len() && keep(#[trigger] name[k])) ==> name.filter(keep).len()
            > 0,
    decreases name.len(),
{
    reveal(Seq::filter);
    if name.len() > 0 {
        let t = name.drop_last();
        lemma_filter(t, keep);
        let out = name.filter(keep);
        let less = t.filter(keep);
        assert forall|k: int| 0 <= k < out.len() implies keep(#[trigger] out[k]) && name.contains(
            out[k],
        ) by {
            if k < less.len() {
                assert(out[k] == less[k]);
                let j = choose|j: int| 0 <= j < t.len() && t[j] == less[k];
                assert(name[j] == out[k]);
            } else {
                assert(name[name.len() - 1] == out[k]);
            }
        }
        if forall|k: int| 0 <= k < name.len() ==> keep(#[trigger] name[k]) {
            assert forall|k: int| 0 <= k < t.len() implies keep(#[trigger] t[k]) by {
                assert(keep(name[k]));
            }
            assert(keep(name[name.len() - 1]));
            assert(out =~= name);
        }
        if exists|k: int| 0 <= k < name.len() && keep(#[trigger] name[k]) {
            let k = choose|k: int| 0 <= k < name.len() && keep(#[trigger] name[k]);
            if k < t.len() {
                assert(keep(t[k]));
            }
        }
    }
}

/// A word added to a line stands behind it after one space.
pub proof fn an_added_word_stands_at_the_end(s: Seq<char>, word: Seq<char>)
    ensures
        line::with_word(s, word) == s + seq![' '] + word,
{
    assert(line::with_word(s, word) =~= s + seq![' '] + word);
}

/// A word taken out of a body goes with the space in front of it, or behind it
/// where it is the first; blanks at the end go too.
pub proof fn a_removed_word_leaves_the_rest(before: Seq<char>, word: Seq<char>, after: Seq<char>)
    requires
        word.len() > 0,
    ensures
        before.len() > 0 && (after.len() == 0 || after[0] == ' ') ==> line::without_word(
            before + seq![' '] + word + after,
            before.len() as int + 1,
            word.len() as int,
        ) == line::trim_end(before + after),
        line::without_word(word + seq![' '] + after, 0, word.len() as int) == line::trim_end(after),
        line::without_word(word, 0, word.len() as int).len() == 0,
{
    let body = before + seq![' '] + word + after;
    assert(body.take(before.len() as int) =~= before);
    assert(body.skip(before.len() as int + 1 + word.len()) =~= after);
    assert((word + seq![' '] + after).skip(word.len() as int + 1) =~= after);
    assert(line::trim_end(Seq::<char>::empty()).len() == 0);
}

/// A word that a body does not have is, once added, found at its end, and
/// taking it out gives the body back.
pub proof fn an_added_word_can_be_taken_out(body: Seq<char>, word: Seq<char>)
    requires
        word.len() > 0,
        forall|k: int| 0 <= k < word.len() ==> #[trigger] word[k] != ' ',
        line::find_word(body, word, 0, true) is None,
        body.len() > 0,
        !is_white(body.last()),
    ensures
        line::find_word(body + seq![' '] + word, word, 0, true) == Some(body.len() as int + 1),
        line::without_word(body + seq![' '] + word, body.len() as int + 1, word.len() as int) == body,
{
    let more = body + seq![' '] + word;
    let n = body.len() as int;
    words_are_found(body, word);
    words_are_found(more, word);
    assert(is_word_at(more, word, n + 1));
    let i = line::find_word(more, word, 0, true)->0;
    if i < n + 1 {
        if i + word.len() > n {
            let k = n - i;
            assert(more[i + k] == word[k]);
        } else {
            assert forall|k: int| 0 <= k < word.len() implies body[i + k] == #[trigger] word[k] by {
                assert(more[i + k] == word[k]);
            }
            assert(is_word_at(body, word, i));
        }
    }
    let none = Seq::<char>::empty();
    assert(more =~= body + seq![' '] + word + none);
    a_removed_word_leaves_the_rest(body, word, none);
    assert(body + none =~= body);
    let b = lemma_cut_back(body);
    assert(b == n);
    assert(body.take(n) =~= body);
}

/// Blanks at the end of a text are cut, and nothing else.
pub proof fn only_blanks_at_the_end_are_cut(s: Seq<char>) -> (b: int)
    ensures
        0 <= b <= s.len(),
        line::trim_end(s) == s.take(b),
        forall|k: int| b <= k < s.len() ==> is_white(#[trigger] s[k]),
        b > 0 ==> !is_white(s[b - 1]),
{
    lemma_cut_back(s)
}

/// A line can stand in a file: it has a checkbox that is open or ticked with a
/// small letter, no line break, and no blank at its end.
pub proof fn lines_can_stand_in_a_file(s: Seq<char>)
    ensures
        line::canonical(s) <==> {
            &&& s.len() >= 6
            &&& s.take(6) == boxed(' ') || s.take(6) == boxed('x')
            &&& !is_white(s.last())
            &&& forall|k: int| 0 <= k < s.len() ==> #[trigger] s[k] != '\n'
        },
{
    if s.len() >= 6 {
        let t = s.take(6);
        assert(t[0] == s[0] && t[1] == s[1] && t[2] == s[2] && t[3] == s[3] && t[4] == s[4] && t[5]
            == s[5]);
        if line::has_box(s) {
            assert(t =~= boxed(s[3]));
        }
    }
}

/// A line is put together from its parts in this order: the box, the priority
/// in brackets, the day it was done, the day it was made, and the body.
pub proof fn lines_are_put_together(p: line::PartsView)
    ensures
        line::line_of(p) == boxed(
            if p.done {
                'x'
            } else {
                ' '
            },
        ) + (match p.priority {
            Some(c) => seq!['(', c, ')', ' '],
            None => Seq::empty(),
        }) + (match p.done_date {
            Some(d) => d + seq![' '],
            None => Seq::empty(),
        }) + (match p.created {
            Some(d) => d + seq![' '],
            None => Seq::empty(),
        }) + p.body,
{
    assert(line::checkbox(p.done) =~= boxed(
        if p.done {
            'x'
        } else {
            ' '
        },
    ));
    if let Some(d) = p.done_date {
        assert(d.push(' ') =~= d + seq![' ']);
    }
    if let Some(d) = p.created {
        assert(d.push(' ') =~= d + seq![' ']);
    }
}

proof fn lemma_cut_at(front: Seq<char>, back: Seq<char>)
    ensures
        (front + back).take(front.len() as int) == front,
        (front + back).skip(front.len() as int) == back,
{
    assert((front + back).take(front.len() as int) =~= front);
    assert((front + back).skip(front.len() as int) =~= back);
}

/// A line whose body is changed keeps all that stands in front of it.
pub proof fn a_new_body_keeps_what_stands_before(s: Seq<char>, body: Seq<char>) -> (at: int)
    requires
        line::canonical(s),
    ensures
        6 <= at <= s.len(),
        line::parts_of(s).body == s.skip(at),
        line::line_of(line::PartsView { body, ..line::parts_of(s) }) == s.take(at) + body,
{
    let p = line::parts_of(s);
    line::parts_make_up_the_line(s);
    let front = line::checkbox(p.done) + line::priority_text(p.priority) + line::date_part(
        p.done_date,
    ) + line::date_part(p.created);
    lemma_cut_at(front, p.body);
    let at = front.len() as int;
    at
}

} // verus!
