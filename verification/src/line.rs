//! The grammar of a task line.
//!
//! A line is a checkbox, an optional priority, up to two dates and a body:
//! `- [ ] (A) 2026-04-01 call home due:2026-05-04 +family @phone`. A completed
//! line carries its completion date before its creation date.
use crate::date;
use crate::date::{parse_date, parse_span, shift, write_date, Date};
use vstd::prelude::*;

verus! {

pub open spec fn is_blank(c: char) -> bool {
    c == ' ' || c == '\t' || c == '\r' || c == '\n'
}

pub open spec fn trim_start(s: Seq<char>) -> Seq<char>
    decreases s.len(),
{
    if s.len() > 0 && is_blank(s[0]) {
        trim_start(s.drop_first())
    } else {
        s
    }
}

pub open spec fn trim_end(s: Seq<char>) -> Seq<char>
    decreases s.len(),
{
    if s.len() > 0 && is_blank(s.last()) {
        trim_end(s.drop_last())
    } else {
        s
    }
}

/// A text on one line: line breaks become spaces, blanks at both ends go.
pub open spec fn clean(s: Seq<char>) -> Seq<char> {
    trim_end(
        trim_start(
            s.map_values(
                |c: char|
                    if c == '\n' {
                        ' '
                    } else {
                        c
                    },
            ),
        ),
    )
}

/// The text starts with a checkbox.
pub open spec fn has_box(s: Seq<char>) -> bool {
    &&& s.len() >= 6
    &&& s[0] == '-'
    &&& s[1] == ' '
    &&& s[2] == '['
    &&& s[3] == ' ' || s[3] == 'x' || s[3] == 'X'
    &&& s[4] == ']'
    &&& s[5] == ' '
}

/// The empty or the ticked checkbox.
pub open spec fn checkbox(done: bool) -> Seq<char> {
    seq![
        '-',
        ' ',
        '[',
        if done {
            'x'
        } else {
            ' '
        },
        ']',
        ' ',
    ]
}

/// The line of a cleaned text: a text without a checkbox is an open task.
pub open spec fn normal_line(s: Seq<char>) -> Seq<char> {
    if has_box(s) {
        checkbox(s[3] != ' ') + s.skip(6)
    } else {
        checkbox(false) + s
    }
}

/// A line as stores hold it.
pub open spec fn canonical(s: Seq<char>) -> bool {
    &&& has_box(s)
    &&& s[3] != 'X'
    &&& !is_blank(s.last())
    &&& forall|i: int| 0 <= i < s.len() ==> #[trigger] s[i] != '\n'
}

/// What a line says before its body, and the body.
#[verifier::ext_equal]
pub struct PartsView {
    pub done: bool,
    pub priority: Option<char>,
    pub done_date: Option<Seq<char>>,
    pub created: Option<Seq<char>>,
    pub body: Seq<char>,
}

/// The priority letter that a text starts with.
pub open spec fn lead_priority(s: Seq<char>) -> Option<char> {
    if s.len() >= 4 && s[0] == '(' && 'A' <= s[1] && s[1] <= 'Z' && s[2] == ')' && s[3] == ' ' {
        Some(s[1])
    } else {
        None
    }
}

/// The date that a text starts with, when more follows it.
pub open spec fn lead_date(s: Seq<char>) -> Option<Seq<char>> {
    if s.len() >= 11 && s[10] == ' ' && date::date_in(s.take(10)) is Some {
        Some(s.take(10))
    } else {
        None
    }
}

/// The rest of a text after its leading date.
pub open spec fn after_date(s: Seq<char>) -> Seq<char> {
    if lead_date(s) is Some {
        s.skip(11)
    } else {
        s
    }
}

/// The rest of a text after its leading priority.
pub open spec fn after_priority(s: Seq<char>) -> Seq<char> {
    if lead_priority(s) is Some {
        s.skip(4)
    } else {
        s
    }
}

/// The parts of a line that starts with a checkbox.
pub open spec fn parts_of(s: Seq<char>) -> PartsView {
    let head = s.skip(6);
    let rest = after_priority(head);
    let first = lead_date(rest);
    let second = after_date(rest);
    if s[3] == ' ' {
        PartsView {
            done: false,
            priority: lead_priority(head),
            done_date: None,
            created: first,
            body: second,
        }
    } else if first is None {
        PartsView {
            done: true,
            priority: lead_priority(head),
            done_date: None,
            created: None,
            body: second,
        }
    } else {
        PartsView {
            done: true,
            priority: lead_priority(head),
            done_date: first,
            created: lead_date(second),
            body: after_date(second),
        }
    }
}

pub open spec fn priority_text(p: Option<char>) -> Seq<char> {
    match p {
        Some(c) => seq!['(', c, ')', ' '],
        None => Seq::empty(),
    }
}

pub open spec fn date_part(d: Option<Seq<char>>) -> Seq<char> {
    match d {
        Some(s) => s.push(' '),
        None => Seq::empty(),
    }
}

/// The line that has the given parts.
pub open spec fn line_of(p: PartsView) -> Seq<char> {
    checkbox(p.done) + priority_text(p.priority) + date_part(p.done_date) + date_part(p.created)
        + p.body
}

/// `key` stands at `i` at the start of a word and, when `whole`, is that word.
pub open spec fn word_at(body: Seq<char>, key: Seq<char>, i: int, whole: bool) -> bool {
    &&& 0 <= i
    &&& i + key.len() <= body.len()
    &&& i == 0 || body[i - 1] == ' '
    &&& body.subrange(i, i + key.len()) == key
    &&& whole ==> (i + key.len() == body.len() || body[i + key.len()] == ' ')
}

/// The first place from `i` on at which `key` starts a word (is a word).
pub open spec fn find_word(body: Seq<char>, key: Seq<char>, i: int, whole: bool) -> Option<int>
    decreases body.len() - i,
{
    if i >= body.len() {
        None
    } else if word_at(body, key, i, whole) {
        Some(i)
    } else {
        find_word(body, key, i + 1, whole)
    }
}

/// Where the word around `i` ends.
pub open spec fn word_end(body: Seq<char>, i: int) -> int
    decreases body.len() - i,
{
    if i >= body.len() {
        body.len() as int
    } else if body[i] == ' ' {
        i
    } else {
        word_end(body, i + 1)
    }
}

/// The value of the first tag `key...` in a body.
pub open spec fn tag_value(body: Seq<char>, key: Seq<char>) -> Option<Seq<char>> {
    match find_word(body, key, 0, false) {
        Some(i) => Some(body.subrange(i + key.len(), word_end(body, i + key.len()))),
        None => None,
    }
}

pub open spec fn due_key() -> Seq<char> {
    seq!['d', 'u', 'e', ':']
}

pub open spec fn threshold_key() -> Seq<char> {
    seq!['t', ':']
}

pub open spec fn rec_key() -> Seq<char> {
    seq!['r', 'e', 'c', ':']
}

/// The due date that a body states.
pub open spec fn due_in(body: Seq<char>) -> Option<Date> {
    match tag_value(body, due_key()) {
        Some(v) => date::date_in(v),
        None => None,
    }
}

/// The day from which a task counts as current: a date, or a span counted from
/// the due date.
pub open spec fn threshold_in(body: Seq<char>) -> Option<Date> {
    match tag_value(body, threshold_key()) {
        Some(v) => match date::date_in(v) {
            Some(d) => Some(d),
            None => match (date::span_in(v), due_in(body)) {
                (Some(by), Some(due)) => date::shifted(due, by),
                _ => None,
            },
        },
        None => None,
    }
}

/// The due date of the next occurrence: the recurrence counts from the due
/// date when it is written with a plus sign, from `today` otherwise.
pub open spec fn next_due(body: Seq<char>, today: Seq<char>) -> Option<Date> {
    match (tag_value(body, rec_key()), due_in(body)) {
        (Some(v), Some(due)) => match date::span_in(v) {
            Some(by) => if by.count <= 0 {
                None
            } else if v[0] != '+' && date::date_in(today) is Some {
                date::shifted(date::date_in(today)->0, by)
            } else {
                date::shifted(due, by)
            },
            None => None,
        },
        _ => None,
    }
}

/// A body with the value of its due tag replaced.
pub open spec fn with_due(body: Seq<char>, due: Date) -> Seq<char> {
    let at = find_word(body, due_key(), 0, false)->0 + 4;
    body.take(at) + date::date_text(due) + body.skip(word_end(body, at))
}

/// `today` when it is a date.
pub open spec fn stamp(today: Seq<char>) -> Option<Seq<char>> {
    if date::date_in(today) is Some {
        Some(today)
    } else {
        None
    }
}

/// An open line ticked off on `today`.
pub open spec fn completed(s: Seq<char>, today: Seq<char>) -> Seq<char> {
    line_of(PartsView { done: true, done_date: stamp(today), ..parts_of(s) })
}

/// A ticked line made open again.
pub open spec fn reopened(s: Seq<char>) -> Seq<char> {
    line_of(PartsView { done: false, done_date: None, ..parts_of(s) })
}

/// The line that completing `s` on `today` leaves behind, when it recurs.
pub open spec fn next_occurrence(s: Seq<char>, today: Seq<char>) -> Option<Seq<char>> {
    let p = parts_of(s);
    match next_due(p.body, today) {
        Some(due) => Some(
            line_of(
                PartsView {
                    done: false,
                    done_date: None,
                    created: stamp(today),
                    body: with_due(p.body, due),
                    ..p
                },
            ),
        ),
        None => None,
    }
}

/// The priority that follows another in the cycle none, A, B, C.
pub open spec fn priority_after(p: Option<char>) -> Option<char> {
    match p {
        None => Some('A'),
        Some(c) => if c == 'A' {
            Some('B')
        } else if c == 'B' {
            Some('C')
        } else {
            None
        },
    }
}

/// A line with the next priority.
pub open spec fn reprioritized(s: Seq<char>) -> Seq<char> {
    let p = parts_of(s);
    line_of(PartsView { priority: priority_after(p.priority), ..p })
}

/// A word made of a sign and the non-blank characters of a name.
pub open spec fn tag_word(sign: char, name: Seq<char>) -> Seq<char> {
    seq![sign] + name.filter(|c: char| !is_blank(c))
}

/// A line with one more word.
pub open spec fn with_word(s: Seq<char>, word: Seq<char>) -> Seq<char> {
    s.push(' ') + word
}

/// A body without the word at `i`, one of the spaces around it, and blanks at
/// the end.
pub open spec fn without_word(body: Seq<char>, i: int, len: int) -> Seq<char> {
    trim_end(
        if i > 0 {
            body.take(i - 1) + body.skip(i + len)
        } else if len < body.len() {
            body.skip(len + 1)
        } else {
            Seq::empty()
        },
    )
}

/// The parts of a line.
pub struct Parts {
    pub done: bool,
    pub priority: Option<char>,
    pub done_date: Option<Vec<char>>,
    pub created: Option<Vec<char>>,
    pub body: Vec<char>,
}

/// The characters of an optional text.
pub open spec fn opt_chars(o: Option<Vec<char>>) -> Option<Seq<char>> {
    match o {
        Some(v) => Some(v@),
        None => None,
    }
}

impl View for Parts {
    type V = PartsView;

    open spec fn view(&self) -> PartsView {
        PartsView {
            done: self.done,
            priority: self.priority,
            done_date: opt_chars(self.done_date),
            created: opt_chars(self.created),
            body: self.body@,
        }
    }
}

/// The characters from `from` to `to`.
pub fn slice(s: &Vec<char>, from: usize, to: usize) -> (r: Vec<char>)
    requires
        from <= to <= s.len(),
    ensures
        r@ == s@.subrange(from as int, to as int),
{
    let mut out: Vec<char> = Vec::new();
    let mut i: usize = from;
    while i < to
        invariant
            from <= i <= to <= s.len(),
            out@ == s@.subrange(from as int, i as int),
        decreases to - i,
    {
        out.push(s[i]);
        proof {
            assert(s@.subrange(from as int, i + 1) =~= s@.subrange(from as int, i as int).push(
                s@[i as int],
            ));
        }
        i += 1;
    }
    out
}

/// Append all of `more`.
pub fn extend(out: &mut Vec<char>, more: &Vec<char>)
    ensures
        final(out)@ == old(out)@ + more@,
{
    let mut i: usize = 0;
    proof {
        assert(out@ =~= old(out)@ + more@.take(0));
    }
    while i < more.len()
        invariant
            i <= more.len(),
            out@ == old(out)@ + more@.take(i as int),
        decreases more.len() - i,
    {
        out.push(more[i]);
        proof {
            assert(out@ =~= old(out)@ + more@.take(i + 1));
        }
        i += 1;
    }
    proof {
        assert(more@.take(more@.len() as int) =~= more@);
    }
}

fn blank(c: char) -> (r: bool)
    ensures
        r == is_blank(c),
{
    c == ' ' || c == '\t' || c == '\r' || c == '\n'
}

/// A text without the blanks at its end.
pub fn trimmed_end(s: &Vec<char>) -> (r: Vec<char>)
    ensures
        r@ == trim_end(s@),
{
    let mut to: usize = s.len();
    proof {
        assert(s@.take(to as int) =~= s@);
    }
    while to > 0 && blank(s[to - 1])
        invariant
            to <= s.len(),
            trim_end(s@) == trim_end(s@.take(to as int)),
        decreases to,
    {
        proof {
            assert(s@.take(to as int).drop_last() =~= s@.take(to - 1));
        }
        to -= 1;
    }
    proof {
        assert(s@.subrange(0, to as int) =~= s@.take(to as int));
        if to > 0 {
            assert(s@.take(to as int).last() == s@[to - 1]);
        }
    }
    slice(s, 0, to)
}

/// A text on one line: line breaks become spaces, blanks at both ends go.
pub fn clean_text(s: &Vec<char>) -> (r: Vec<char>)
    ensures
        r@ == clean(s@),
{
    let ghost flat = s@.map_values(
        |c: char|
            if c == '\n' {
                ' '
            } else {
                c
            },
    );
    let mut out: Vec<char> = Vec::new();
    let mut i: usize = 0;
    while i < s.len()
        invariant
            i <= s.len(),
            flat.len() == s@.len(),
            forall|k: int|
                0 <= k < s@.len() ==> #[trigger] flat[k] == (if s@[k] == '\n' {
                    ' '
                } else {
                    s@[k]
                }),
            out@ == flat.take(i as int),
        decreases s.len() - i,
    {
        let c: char = if s[i] == '\n' {
            ' '
        } else {
            s[i]
        };
        out.push(c);
        proof {
            assert(flat.take(i + 1) =~= flat.take(i as int).push(flat[i as int]));
        }
        i += 1;
    }
    proof {
        assert(flat.take(flat.len() as int) =~= flat);
    }
    let mut from: usize = 0;
    proof {
        assert(out@.skip(0) =~= out@);
    }
    while from < out.len() && blank(out[from])
        invariant
            from <= out.len(),
            trim_start(out@) == trim_start(out@.skip(from as int)),
        decreases out.len() - from,
    {
        proof {
            assert(out@.skip(from as int).drop_first() =~= out@.skip(from + 1));
        }
        from += 1;
    }
    let rest: Vec<char> = slice(&out, from, out.len());
    proof {
        assert(out@.subrange(from as int, out@.len() as int) =~= out@.skip(from as int));
        if from < out@.len() {
            assert(out@.skip(from as int)[0] == out@[from as int]);
        }
    }
    trimmed_end(&rest)
}

fn starts_with_box(s: &Vec<char>) -> (r: bool)
    ensures
        r == has_box(s@),
{
    s.len() >= 6 && s[0] == '-' && s[1] == ' ' && s[2] == '[' && (s[3] == ' ' || s[3] == 'x' || s[3]
        == 'X') && s[4] == ']' && s[5] == ' '
}

fn new_checkbox(done: bool) -> (r: Vec<char>)
    ensures
        r@ == checkbox(done),
{
    let mut out: Vec<char> = Vec::new();
    out.push('-');
    out.push(' ');
    out.push('[');
    out.push(
        if done {
            'x'
        } else {
            ' '
        },
    );
    out.push(']');
    out.push(' ');
    proof {
        assert(out@ =~= checkbox(done));
    }
    out
}

/// The line of a cleaned text.
pub fn make_line(s: &Vec<char>) -> (r: Vec<char>)
    ensures
        r@ == normal_line(s@),
{
    if starts_with_box(s) {
        let mut out: Vec<char> = new_checkbox(s[3] != ' ');
        let rest: Vec<char> = slice(s, 6, s.len());
        proof {
            assert(s@.subrange(6, s@.len() as int) =~= s@.skip(6));
        }
        extend(&mut out, &rest);
        out
    } else {
        let mut out: Vec<char> = new_checkbox(false);
        extend(&mut out, s);
        out
    }
}

fn leading_date(s: &Vec<char>) -> (r: Option<Vec<char>>)
    ensures
        opt_chars(r) == lead_date(s@),
{
    if s.len() >= 11 && s[10] == ' ' {
        let head: Vec<char> = slice(s, 0, 10);
        proof {
            assert(s@.subrange(0, 10) =~= s@.take(10));
        }
        if parse_date(&head).is_some() {
            return Some(head);
        }
    }
    None
}

/// The parts of a line that starts with a checkbox.
pub fn split_line(s: &Vec<char>) -> (r: Parts)
    requires
        has_box(s@),
    ensures
        r@ == parts_of(s@),
{
    let head: Vec<char> = slice(s, 6, s.len());
    proof {
        assert(s@.subrange(6, s@.len() as int) =~= s@.skip(6));
    }
    let has_priority: bool = head.len() >= 4 && head[0] == '(' && 'A' <= head[1] && head[1] <= 'Z'
        && head[2] == ')' && head[3] == ' ';
    let priority: Option<char> = if has_priority {
        Some(head[1])
    } else {
        None
    };
    let rest: Vec<char> = if has_priority {
        proof {
            assert(head@.subrange(4, head@.len() as int) =~= head@.skip(4));
        }
        slice(&head, 4, head.len())
    } else {
        head
    };
    let first: Option<Vec<char>> = leading_date(&rest);
    let second: Vec<char> = if first.is_some() {
        proof {
            assert(rest@.subrange(11, rest@.len() as int) =~= rest@.skip(11));
        }
        slice(&rest, 11, rest.len())
    } else {
        rest
    };
    if s[3] == ' ' {
        Parts { done: false, priority, done_date: None, created: first, body: second }
    } else if first.is_none() {
        Parts { done: true, priority, done_date: None, created: None, body: second }
    } else {
        let created: Option<Vec<char>> = leading_date(&second);
        let body: Vec<char> = if created.is_some() {
            proof {
                assert(second@.subrange(11, second@.len() as int) =~= second@.skip(11));
            }
            slice(&second, 11, second.len())
        } else {
            second
        };
        Parts { done: true, priority, done_date: first, created, body }
    }
}

/// The line that has the given parts.
pub fn join_line(p: &Parts) -> (r: Vec<char>)
    ensures
        r@ == line_of(p@),
{
    let mut out: Vec<char> = new_checkbox(p.done);
    let ghost a = out@;
    match p.priority {
        Some(c) => {
            out.push('(');
            out.push(c);
            out.push(')');
            out.push(' ');
        },
        None => {},
    }
    let ghost b = out@;
    proof {
        assert(b =~= a + priority_text(p.priority));
    }
    match &p.done_date {
        Some(d) => {
            extend(&mut out, d);
            out.push(' ');
        },
        None => {},
    }
    let ghost c = out@;
    proof {
        assert(c =~= b + date_part(p@.done_date));
    }
    match &p.created {
        Some(d) => {
            extend(&mut out, d);
            out.push(' ');
        },
        None => {},
    }
    proof {
        assert(out@ =~= c + date_part(p@.created));
    }
    extend(&mut out, &p.body);
    out
}

/// A line splits into parts that make up the same line.
pub proof fn parts_make_up_the_line(s: Seq<char>)
    requires
        has_box(s),
        s[3] != 'X',
    ensures
        line_of(parts_of(s)) == s,
{
    let head = s.skip(6);
    assert(s =~= checkbox(s[3] != ' ') + head);
    let rest = after_priority(head);
    assert(head =~= priority_text(lead_priority(head)) + rest);
    let second = after_date(rest);
    assert(rest =~= date_part(lead_date(rest)) + second);
    assert(second =~= date_part(lead_date(second)) + after_date(second));
    assert(line_of(parts_of(s)) =~= s);
}

fn word_here(body: &Vec<char>, key: &Vec<char>, i: usize, whole: bool) -> (r: bool)
    requires
        i < body.len(),
    ensures
        r == word_at(body@, key@, i as int, whole),
{
    if key.len() > body.len() - i {
        return false;
    }
    if i > 0 && body[i - 1] != ' ' {
        return false;
    }
    if whole && i + key.len() < body.len() && body[i + key.len()] != ' ' {
        return false;
    }
    let mut k: usize = 0;
    let ghost here = body@.subrange(i as int, i + key@.len());
    while k < key.len()
        invariant
            k <= key.len(),
            i + key.len() <= body.len(),
            here == body@.subrange(i as int, i + key@.len()),
            forall|j: int| 0 <= j < k ==> here[j] == key@[j],
        decreases key.len() - k,
    {
        if body[i + k] != key[k] {
            proof {
                assert(here[k as int] != key@[k as int]);
            }
            return false;
        }
        k += 1;
    }
    proof {
        assert(here =~= key@);
    }
    true
}

/// The first place at which `key` starts a word (is a word, when `whole`).
pub fn find(body: &Vec<char>, key: &Vec<char>, whole: bool) -> (r: Option<usize>)
    ensures
        match r {
            Some(i) => find_word(body@, key@, 0, whole) == Some(i as int) && word_at(
                body@,
                key@,
                i as int,
                whole,
            ),
            None => find_word(body@, key@, 0, whole) is None,
        },
{
    let mut i: usize = 0;
    while i < body.len()
        invariant
            i <= body.len(),
            find_word(body@, key@, 0, whole) == find_word(body@, key@, i as int, whole),
        decreases body.len() - i,
    {
        if word_here(body, key, i, whole) {
            return Some(i);
        }
        i += 1;
    }
    None
}

fn end_of_word(body: &Vec<char>, from: usize) -> (r: usize)
    requires
        from <= body.len(),
    ensures
        r == word_end(body@, from as int),
        from <= r <= body.len(),
{
    let mut i: usize = from;
    while i < body.len() && body[i] != ' '
        invariant
            from <= i <= body.len(),
            word_end(body@, from as int) == word_end(body@, i as int),
        decreases body.len() - i,
    {
        i += 1;
    }
    i
}

/// The value of the first tag `key...` in a body.
pub fn tag(body: &Vec<char>, key: &Vec<char>) -> (r: Option<Vec<char>>)
    ensures
        opt_chars(r) == tag_value(body@, key@),
{
    match find(body, key, false) {
        Some(i) => {
            proof {
                assert(body@.len() == body.len());
            }
            let from: usize = i + key.len();
            let to: usize = end_of_word(body, from);
            Some(slice(body, from, to))
        },
        None => None,
    }
}

fn due_chars() -> (r: Vec<char>)
    ensures
        r@ == due_key(),
{
    let mut out: Vec<char> = Vec::new();
    out.push('d');
    out.push('u');
    out.push('e');
    out.push(':');
    proof {
        assert(out@ =~= due_key());
    }
    out
}

fn threshold_chars() -> (r: Vec<char>)
    ensures
        r@ == threshold_key(),
{
    let mut out: Vec<char> = Vec::new();
    out.push('t');
    out.push(':');
    proof {
        assert(out@ =~= threshold_key());
    }
    out
}

fn rec_chars() -> (r: Vec<char>)
    ensures
        r@ == rec_key(),
{
    let mut out: Vec<char> = Vec::new();
    out.push('r');
    out.push('e');
    out.push('c');
    out.push(':');
    proof {
        assert(out@ =~= rec_key());
    }
    out
}

/// The due date that a body states.
pub fn due_of(body: &Vec<char>) -> (r: Option<Date>)
    ensures
        r == due_in(body@),
        r matches Some(d) ==> d.valid(),
{
    let key: Vec<char> = due_chars();
    match tag(body, &key) {
        Some(v) => parse_date(&v),
        None => None,
    }
}

/// The day from which a task counts as current.
pub fn threshold_of(body: &Vec<char>) -> (r: Option<Date>)
    ensures
        r == threshold_in(body@),
        r matches Some(d) ==> d.valid(),
{
    let key: Vec<char> = threshold_chars();
    match tag(body, &key) {
        Some(v) => match parse_date(&v) {
            Some(d) => Some(d),
            None => match (parse_span(&v), due_of(body)) {
                (Some(by), Some(due)) => shift(due, by),
                _ => None,
            },
        },
        None => None,
    }
}

fn due_next(body: &Vec<char>, today: &Vec<char>) -> (r: Option<Date>)
    ensures
        r == next_due(body@, today@),
        r matches Some(d) ==> d.valid(),
{
    let key: Vec<char> = rec_chars();
    match (tag(body, &key), due_of(body)) {
        (Some(v), Some(due)) => match parse_span(&v) {
            Some(by) => {
                if by.count <= 0 {
                    None
                } else if v[0] != '+' {
                    match parse_date(today) {
                        Some(day) => shift(day, by),
                        None => shift(due, by),
                    }
                } else {
                    shift(due, by)
                }
            },
            None => None,
        },
        _ => None,
    }
}

fn stamped(today: &Vec<char>) -> (r: Option<Vec<char>>)
    ensures
        opt_chars(r) == stamp(today@),
{
    if parse_date(today).is_some() {
        proof {
            assert(today@.subrange(0, today@.len() as int) =~= today@);
        }
        Some(slice(today, 0, today.len()))
    } else {
        None
    }
}

/// An open line ticked off on `today`.
pub fn complete_line(s: &Vec<char>, today: &Vec<char>) -> (r: Vec<char>)
    requires
        has_box(s@),
    ensures
        r@ == completed(s@, today@),
{
    let mut p: Parts = split_line(s);
    p.done = true;
    p.done_date = stamped(today);
    proof {
        assert(p@ =~= PartsView { done: true, done_date: stamp(today@), ..parts_of(s@) });
    }
    join_line(&p)
}

/// A ticked line made open again.
pub fn reopen_line(s: &Vec<char>) -> (r: Vec<char>)
    requires
        has_box(s@),
    ensures
        r@ == reopened(s@),
{
    let mut p: Parts = split_line(s);
    p.done = false;
    p.done_date = None;
    proof {
        assert(p@ =~= PartsView { done: false, done_date: None, ..parts_of(s@) });
    }
    join_line(&p)
}

/// The line that completing `s` on `today` leaves behind, when it recurs.
pub fn spawn_line(s: &Vec<char>, today: &Vec<char>) -> (r: Option<Vec<char>>)
    requires
        has_box(s@),
    ensures
        opt_chars(r) == next_occurrence(s@, today@),
{
    let mut p: Parts = split_line(s);
    let ghost parts = parts_of(s@);
    match due_next(&p.body, today) {
        Some(due) => {
            let key: Vec<char> = due_chars();
            match find(&p.body, &key, false) {
                Some(i) => {
                    proof {
                        assert(p.body@.len() == p.body.len());
                        assert(key@.len() == 4);
                    }
                    let at: usize = i + 4;
                    let end: usize = end_of_word(&p.body, at);
                    let mut body: Vec<char> = slice(&p.body, 0, at);
                    let day: Vec<char> = write_date(due);
                    let tail: Vec<char> = slice(&p.body, end, p.body.len());
                    extend(&mut body, &day);
                    extend(&mut body, &tail);
                    proof {
                        assert(body@ =~= with_due(parts.body, due));
                    }
                    p.done = false;
                    p.done_date = None;
                    p.created = stamped(today);
                    p.body = body;
                    proof {
                        assert(p@ =~= PartsView {
                            done: false,
                            done_date: None,
                            created: stamp(today@),
                            body: with_due(parts.body, due),
                            ..parts
                        });
                    }
                    Some(join_line(&p))
                },
                None => None,
            }
        },
        None => None,
    }
}

/// A line with the next priority, and that priority.
pub fn cycle_line(s: &Vec<char>) -> (r: (Vec<char>, Option<char>))
    requires
        has_box(s@),
    ensures
        r.0@ == reprioritized(s@),
        r.1 == priority_after(parts_of(s@).priority),
{
    let mut p: Parts = split_line(s);
    let next: Option<char> = match p.priority {
        None => Some('A'),
        Some(c) => if c == 'A' {
            Some('B')
        } else if c == 'B' {
            Some('C')
        } else {
            None
        },
    };
    p.priority = next;
    proof {
        assert(p@ =~= PartsView {
            priority: priority_after(parts_of(s@).priority),
            ..parts_of(s@)
        });
    }
    (join_line(&p), next)
}

/// A word made of a sign and the non-blank characters of a name.
pub fn make_word(sign: char, name: &Vec<char>) -> (r: Vec<char>)
    ensures
        r@ == tag_word(sign, name@),
{
    let ghost keep = |c: char| !is_blank(c);
    let mut out: Vec<char> = Vec::new();
    out.push(sign);
    let mut i: usize = 0;
    proof {
        assert(name@.take(0).filter(keep) =~= Seq::<char>::empty()) by {
            reveal(Seq::filter);
        }
        assert(out@ =~= seq![sign] + name@.take(0).filter(keep));
    }
    while i < name.len()
        invariant
            i <= name.len(),
            keep == (|c: char| !is_blank(c)),
            out@ == seq![sign] + name@.take(i as int).filter(keep),
        decreases name.len() - i,
    {
        let ghost before = out@;
        proof {
            reveal(Seq::filter);
            assert(name@.take(i + 1).drop_last() =~= name@.take(i as int));
            assert(name@.take(i + 1).last() == name@[i as int]);
        }
        if !blank(name[i]) {
            out.push(name[i]);
            proof {
                assert(out@ =~= seq![sign] + name@.take(i + 1).filter(keep));
            }
        }
        i += 1;
    }
    proof {
        assert(name@.take(name@.len() as int) =~= name@);
    }
    out
}

/// A body without the word of length `len` at `i`.
pub fn drop_word(body: &Vec<char>, i: usize, len: usize) -> (r: Vec<char>)
    requires
        i + len <= body.len(),
    ensures
        r@ == without_word(body@, i as int, len as int),
{
    let rest: Vec<char> = if i > 0 {
        let mut head: Vec<char> = slice(body, 0, i - 1);
        let tail: Vec<char> = slice(body, i + len, body.len());
        extend(&mut head, &tail);
        proof {
            assert(head@ =~= body@.take(i - 1) + body@.skip(i + len));
        }
        head
    } else if len < body.len() {
        proof {
            assert(body@.subrange(len + 1, body@.len() as int) =~= body@.skip(len + 1));
        }
        slice(body, len + 1, body.len())
    } else {
        Vec::new()
    };
    trimmed_end(&rest)
}

proof fn lemma_trim_start(s: Seq<char>)
    ensures
        trim_start(s).len() <= s.len(),
        forall|i: int| 0 <= i < trim_start(s).len() ==> s.contains(#[trigger] trim_start(s)[i]),
        trim_start(s).len() > 0 ==> !is_blank(trim_start(s)[0]),
    decreases s.len(),
{
    if s.len() > 0 && is_blank(s[0]) {
        let t = s.drop_first();
        lemma_trim_start(t);
        assert forall|i: int| 0 <= i < trim_start(t).len() implies s.contains(
            #[trigger] trim_start(t)[i],
        ) by {
            let k = choose|k: int| 0 <= k < t.len() && t[k] == trim_start(t)[i];
            assert(s[k + 1] == t[k]);
        }
    }
}

proof fn lemma_trim_end(s: Seq<char>)
    ensures
        trim_end(s).len() <= s.len(),
        forall|i: int| 0 <= i < trim_end(s).len() ==> #[trigger] trim_end(s)[i] == s[i],
        trim_end(s).len() > 0 ==> !is_blank(trim_end(s).last()),
    decreases s.len(),
{
    if s.len() > 0 && is_blank(s.last()) {
        lemma_trim_end(s.drop_last());
    }
}

/// Text as it stands on a line of its own: not empty, without a line break,
/// and without a blank at its end.
pub open spec fn one_line(s: Seq<char>) -> bool {
    &&& s.len() > 0
    &&& !is_blank(s.last())
    &&& forall|i: int| 0 <= i < s.len() ==> #[trigger] s[i] != '\n'
}

/// Cleaning leaves nothing, or text that fits on a line and starts with no
/// blank.
pub proof fn clean_fits_a_line(s: Seq<char>)
    ensures
        clean(s).len() > 0 ==> one_line(clean(s)) && !is_blank(clean(s)[0]),
{
    let flat = s.map_values(
        |c: char|
            if c == '\n' {
                ' '
            } else {
                c
            },
    );
    let t = trim_start(flat);
    lemma_trim_start(flat);
    lemma_trim_end(t);
    if clean(s).len() > 0 {
        assert forall|i: int| 0 <= i < clean(s).len() implies #[trigger] clean(s)[i] != '\n' by {
            assert(clean(s)[i] == t[i]);
            assert(flat.contains(t[i]));
            let k = choose|k: int| 0 <= k < flat.len() && flat[k] == t[i];
        }
        assert(clean(s)[0] == t[0]);
    }
}

/// Any text that is not blank makes a canonical line.
pub proof fn cleaned_text_makes_canonical_line(s: Seq<char>)
    requires
        clean(s).len() > 0,
    ensures
        canonical(normal_line(clean(s))),
{
    clean_fits_a_line(s);
    let c = clean(s);
    let l = normal_line(c);
    if has_box(c) {
        assert(c.len() > 6) by {
            assert(is_blank(c[5]));
        }
        assert(l.last() == c.last());
        assert forall|i: int| 0 <= i < l.len() implies #[trigger] l[i] != '\n' by {
            if i >= 6 {
                assert(l[i] == c[i]);
            }
        }
    } else {
        assert(l.last() == c.last());
        assert forall|i: int| 0 <= i < l.len() implies #[trigger] l[i] != '\n' by {
            if i >= 6 {
                assert(l[i] == c[i - 6]);
            }
        }
    }
}

proof fn lemma_date_chars(s: Seq<char>)
    requires
        date::date_in(s) is Some,
    ensures
        s.len() == 10,
        forall|i: int| 0 <= i < s.len() ==> #[trigger] s[i] != '\n',
{
    assert forall|i: int| 0 <= i < s.len() implies #[trigger] s[i] != '\n' by {
        if i < 4 {
            assert(s.take(4)[i] == s[i]);
            assert(date::is_digit(s.take(4)[i]));
        } else if 5 <= i < 7 {
            assert(s.subrange(5, 7)[i - 5] == s[i]);
            assert(date::is_digit(s.subrange(5, 7)[i - 5]));
        } else if 8 <= i < 10 {
            assert(s.subrange(8, 10)[i - 8] == s[i]);
            assert(date::is_digit(s.subrange(8, 10)[i - 8]));
        }
    }
}

/// Parts as a canonical line has them.
pub open spec fn parts_ok(p: PartsView) -> bool {
    &&& one_line(p.body)
    &&& p.priority matches Some(c) ==> 'A' <= c && c <= 'Z'
    &&& p.done_date matches Some(d) ==> date::date_in(d) is Some
    &&& p.created matches Some(d) ==> date::date_in(d) is Some
}

proof fn lemma_after_priority(s: Seq<char>)
    requires
        one_line(s),
    ensures
        one_line(after_priority(s)),
        lead_priority(s) matches Some(c) ==> 'A' <= c && c <= 'Z',
{
    if lead_priority(s) is Some {
        assert(is_blank(s[3]));
        let t = s.skip(4);
        assert(t.len() > 0);
        assert(t.last() == s.last());
        assert forall|i: int| 0 <= i < t.len() implies #[trigger] t[i] != '\n' by {
            assert(t[i] == s[i + 4]);
        }
    }
}

proof fn lemma_after_date(s: Seq<char>)
    requires
        one_line(s),
    ensures
        one_line(after_date(s)),
        lead_date(s) matches Some(d) ==> date::date_in(d) is Some,
{
    if lead_date(s) is Some {
        assert(is_blank(s[10]));
        let t = s.skip(11);
        assert(t.len() > 0);
        assert(t.last() == s.last());
        assert forall|i: int| 0 <= i < t.len() implies #[trigger] t[i] != '\n' by {
            assert(t[i] == s[i + 11]);
        }
    }
}

proof fn lemma_parts_ok(s: Seq<char>)
    requires
        canonical(s),
    ensures
        parts_ok(parts_of(s)),
{
    assert(is_blank(s[5]));
    assert(s.len() > 6);
    let head = s.skip(6);
    assert(head.last() == s.last());
    assert forall|i: int| 0 <= i < head.len() implies #[trigger] head[i] != '\n' by {
        assert(head[i] == s[i + 6]);
    }
    lemma_after_priority(head);
    let rest = after_priority(head);
    lemma_after_date(rest);
    lemma_after_date(after_date(rest));
}

proof fn lemma_join_no_break(a: Seq<char>, b: Seq<char>)
    requires
        forall|i: int| 0 <= i < a.len() ==> #[trigger] a[i] != '\n',
        forall|i: int| 0 <= i < b.len() ==> #[trigger] b[i] != '\n',
    ensures
        forall|i: int| 0 <= i < (a + b).len() ==> #[trigger] (a + b)[i] != '\n',
{
    assert forall|i: int| 0 <= i < (a + b).len() implies #[trigger] (a + b)[i] != '\n' by {
        if i < a.len() {
            assert((a + b)[i] == a[i]);
        } else {
            assert((a + b)[i] == b[i - a.len()]);
        }
    }
}

proof fn lemma_date_part(d: Option<Seq<char>>)
    requires
        d matches Some(x) ==> date::date_in(x) is Some,
    ensures
        forall|i: int| 0 <= i < date_part(d).len() ==> #[trigger] date_part(d)[i] != '\n',
{
    if let Some(x) = d {
        lemma_date_chars(x);
        assert forall|i: int| 0 <= i < date_part(d).len() implies #[trigger] date_part(d)[i]
            != '\n' by {
            if i < x.len() {
                assert(date_part(d)[i] == x[i]);
            }
        }
    }
}

proof fn lemma_line_ok(p: PartsView)
    requires
        parts_ok(p),
    ensures
        canonical(line_of(p)),
{
    let a = checkbox(p.done);
    let b = priority_text(p.priority);
    let c = date_part(p.done_date);
    let d = date_part(p.created);
    lemma_date_part(p.done_date);
    lemma_date_part(p.created);
    lemma_join_no_break(a, b);
    lemma_join_no_break(a + b, c);
    lemma_join_no_break(a + b + c, d);
    lemma_join_no_break(a + b + c + d, p.body);
    let l = line_of(p);
    assert(l.last() == p.body.last());
    assert forall|i: int| 0 <= i < 6 implies l[i] == a[i] by {}
    assert(l[0] == a[0] && l[1] == a[1] && l[2] == a[2] && l[3] == a[3] && l[4] == a[4] && l[5]
        == a[5]);
}

/// Completing keeps a line canonical.
pub proof fn completed_is_canonical(s: Seq<char>, today: Seq<char>)
    requires
        canonical(s),
    ensures
        canonical(completed(s, today)),
{
    lemma_parts_ok(s);
    lemma_line_ok(PartsView { done: true, done_date: stamp(today), ..parts_of(s) });
}

/// Reopening keeps a line canonical.
pub proof fn reopened_is_canonical(s: Seq<char>)
    requires
        canonical(s),
    ensures
        canonical(reopened(s)),
{
    lemma_parts_ok(s);
    lemma_line_ok(PartsView { done: false, done_date: None, ..parts_of(s) });
}

/// Changing the priority keeps a line canonical.
pub proof fn reprioritized_is_canonical(s: Seq<char>)
    requires
        canonical(s),
    ensures
        canonical(reprioritized(s)),
{
    lemma_parts_ok(s);
    let p = parts_of(s);
    lemma_line_ok(PartsView { priority: priority_after(p.priority), ..p });
}

proof fn lemma_word_end(body: Seq<char>, i: int)
    requires
        0 <= i <= body.len(),
    ensures
        i <= word_end(body, i) <= body.len(),
    decreases body.len() - i,
{
    if i < body.len() && body[i] != ' ' {
        lemma_word_end(body, i + 1);
    }
}

proof fn lemma_find_word(body: Seq<char>, key: Seq<char>, i: int, whole: bool)
    requires
        0 <= i,
    ensures
        find_word(body, key, i, whole) matches Some(k) ==> i <= k && word_at(body, key, k, whole),
    decreases body.len() - i,
{
    if i < body.len() && !word_at(body, key, i, whole) {
        lemma_find_word(body, key, i + 1, whole);
    }
}

/// The next occurrence of a canonical line is canonical.
pub proof fn next_occurrence_is_canonical(s: Seq<char>, today: Seq<char>)
    requires
        canonical(s),
    ensures
        next_occurrence(s, today) matches Some(l) ==> canonical(l),
{
    lemma_parts_ok(s);
    let p = parts_of(s);
    if let Some(due) = next_due(p.body, today) {
        lemma_next_due_valid(p.body, today);
        date::written_date_reads_back(due);
        lemma_date_chars(date::date_text(due));
        lemma_find_word(p.body, due_key(), 0, false);
        let at = find_word(p.body, due_key(), 0, false)->0 + 4;
        lemma_word_end(p.body, at);
        let end = word_end(p.body, at);
        let a = p.body.take(at);
        let d = date::date_text(due);
        let t = p.body.skip(end);
        assert forall|i: int| 0 <= i < a.len() implies #[trigger] a[i] != '\n' by {
            assert(a[i] == p.body[i]);
        }
        assert forall|i: int| 0 <= i < t.len() implies #[trigger] t[i] != '\n' by {
            assert(t[i] == p.body[i + end]);
        }
        lemma_join_no_break(a, d);
        lemma_join_no_break(a + d, t);
        let b = with_due(p.body, due);
        assert(b == a + d + t);
        if end < p.body.len() {
            assert(b.last() == p.body.last());
        } else {
            assert(t.len() == 0);
            assert(b.last() == d.last());
            let tail = d.subrange(8, 10);
            assert(tail[1] == d[9]);
            assert(date::is_digit(tail[1]));
        }
        lemma_line_ok(
            PartsView { done: false, done_date: None, created: stamp(today), body: b, ..p },
        );
    }
}

proof fn lemma_next_due_valid(body: Seq<char>, today: Seq<char>)
    ensures
        next_due(body, today) matches Some(d) ==> d.valid(),
{
    if next_due(body, today) is Some {
        let v = tag_value(body, rec_key())->0;
        let by = date::span_in(v)->0;
        if date::date_in(today) is Some {
            date::shifted_is_valid(date::date_in(today)->0, by);
        }
        date::shifted_is_valid(due_in(body)->0, by);
    }
}

/// A word of a sign and a name that is not blank keeps a line canonical.
pub proof fn with_word_is_canonical(s: Seq<char>, sign: char, name: Seq<char>)
    requires
        canonical(s),
        !is_blank(sign),
    ensures
        canonical(with_word(s, tag_word(sign, name))),
{
    let keep = |c: char| !is_blank(c);
    let f = name.filter(keep);
    let w = tag_word(sign, name);
    assert forall|i: int| 0 <= i < w.len() implies !is_blank(#[trigger] w[i]) by {
        if i > 0 {
            assert(w[i] == f[i - 1]);
            name.lemma_filter_pred(keep, i - 1);
        }
    }
    let l = with_word(s, w);
    assert(l.last() == w.last());
    assert forall|i: int| 0 <= i < l.len() implies #[trigger] l[i] != '\n' by {
        if i < s.len() {
            assert(l[i] == s[i]);
        } else if i > s.len() {
            assert(l[i] == w[i - s.len() - 1]);
        }
    }
    assert(l[0] == s[0] && l[1] == s[1] && l[2] == s[2] && l[3] == s[3] && l[4] == s[4] && l[5]
        == s[5]);
}

/// Taking out a word keeps a line canonical as long as some body is left.
pub proof fn without_word_is_canonical(s: Seq<char>, i: int, len: int)
    requires
        canonical(s),
        0 <= i,
        0 <= len,
        i + len <= parts_of(s).body.len(),
        without_word(parts_of(s).body, i, len).len() > 0,
    ensures
        canonical(
            line_of(
                PartsView { body: without_word(parts_of(s).body, i, len), ..parts_of(s) },
            ),
        ),
{
    lemma_parts_ok(s);
    let body = parts_of(s).body;
    let rest = if i > 0 {
        body.take(i - 1) + body.skip(i + len)
    } else if len < body.len() {
        body.skip(len + 1)
    } else {
        Seq::empty()
    };
    lemma_trim_end(rest);
    let w = without_word(body, i, len);
    assert forall|k: int| 0 <= k < w.len() implies #[trigger] w[k] != '\n' by {
        assert(w[k] == rest[k]);
        if i > 0 {
            if k < i - 1 {
                assert(rest[k] == body[k]);
            } else {
                assert(rest[k] == body[k - (i - 1) + i + len]);
            }
        } else {
            assert(rest[k] == body[k + len + 1]);
        }
    }
    lemma_line_ok(PartsView { body: w, ..parts_of(s) });
}

} // verus!
