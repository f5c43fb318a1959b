//! Tasks, and the text of a file of tasks.
use crate::date::Date;
use crate::line;
use crate::line::{clean_text, due_of, make_line, split_line, threshold_of, Parts};
use crate::text::{chars_of, string_of};
use vstd::prelude::*;

verus! {

/// One task line and what it says.
#[derive(Debug)]
pub struct Task {
    /// The whole line.
    pub raw: String,
    pub done: bool,
    pub priority: Option<char>,
    /// The day the task was completed.
    pub done_date: Option<String>,
    /// The text after the checkbox, the priority and the dates.
    pub body: String,
    pub due: Option<Date>,
    /// The day from which the task counts as current.
    pub threshold: Option<Date>,
}

/// The text of an optional string.
pub open spec fn opt_text(o: Option<String>) -> Option<Seq<char>> {
    match o {
        Some(s) => Some(s@),
        None => None,
    }
}

impl Task {
    /// The fields say what the line says.
    pub open spec fn wf(&self) -> bool {
        let p = line::parts_of(self.raw@);
        &&& line::canonical(self.raw@)
        &&& self.done == p.done
        &&& self.priority == p.priority
        &&& opt_text(self.done_date) == p.done_date
        &&& self.body@ == p.body
        &&& self.due == line::due_in(p.body)
        &&& self.threshold == line::threshold_in(p.body)
        &&& self.due matches Some(d) ==> d.valid()
        &&& self.threshold matches Some(d) ==> d.valid()
    }

    /// The task that a canonical line writes.
    pub fn from_line(raw: &Vec<char>) -> (r: Task)
        requires
            line::canonical(raw@),
        ensures
            r.wf(),
            r.raw@ == raw@,
    {
        let p: Parts = split_line(raw);
        let due: Option<Date> = due_of(&p.body);
        let threshold: Option<Date> = threshold_of(&p.body);
        let done_date: Option<String> = match &p.done_date {
            Some(d) => Some(string_of(d)),
            None => None,
        };
        Task {
            raw: string_of(raw),
            done: p.done,
            priority: p.priority,
            done_date,
            body: string_of(&p.body),
            due,
            threshold,
        }
    }
}

impl Clone for Task {
    fn clone(&self) -> (r: Self)
        ensures
            r == *self,
    {
        let done_date: Option<String> = match &self.done_date {
            Some(d) => Some(d.clone()),
            None => None,
        };
        Task {
            raw: self.raw.clone(),
            done: self.done,
            priority: self.priority,
            done_date,
            body: self.body.clone(),
            due: self.due,
            threshold: self.threshold,
        }
    }
}

/// The lines of a list of tasks.
pub open spec fn raws(tasks: Seq<Task>) -> Seq<Seq<char>> {
    Seq::new(tasks.len(), |i: int| tasks[i].raw@)
}

/// Every task says what its line says.
pub open spec fn tasks_wf(tasks: Seq<Task>) -> bool {
    forall|i: int| 0 <= i < tasks.len() ==> (#[trigger] tasks[i]).wf()
}

/// The pieces of a text between line breaks.
pub open spec fn split(s: Seq<char>) -> Seq<Seq<char>>
    decreases s.len(),
{
    if s.len() == 0 {
        seq![Seq::empty()]
    } else {
        let before = split(s.drop_last());
        if s.last() == '\n' {
            before.push(Seq::empty())
        } else {
            before.drop_last().push(before.last().push(s.last()))
        }
    }
}

/// The task lines among the pieces of a text: every piece that is not blank.
pub open spec fn lines_among(pieces: Seq<Seq<char>>) -> Seq<Seq<char>>
    decreases pieces.len(),
{
    if pieces.len() == 0 {
        Seq::empty()
    } else {
        let before = lines_among(pieces.drop_last());
        let c = line::clean(pieces.last());
        if c.len() == 0 {
            before
        } else {
            before.push(line::normal_line(c))
        }
    }
}

/// The task lines of a file.
pub open spec fn task_lines(text: Seq<char>) -> Seq<Seq<char>> {
    lines_among(split(text))
}

/// The text of a file that holds the given lines.
pub open spec fn file_text(lines: Seq<Seq<char>>) -> Seq<char>
    decreases lines.len(),
{
    if lines.len() == 0 {
        Seq::empty()
    } else {
        (file_text(lines.drop_last()) + lines.last()).push('\n')
    }
}

pub open spec fn all_canonical(lines: Seq<Seq<char>>) -> bool {
    forall|i: int| 0 <= i < lines.len() ==> line::canonical(#[trigger] lines[i])
}

proof fn lemma_split_nonempty(s: Seq<char>)
    ensures
        split(s).len() > 0,
    decreases s.len(),
{
    if s.len() > 0 {
        lemma_split_nonempty(s.drop_last());
    }
}

proof fn lemma_split_append(s: Seq<char>, l: Seq<char>)
    requires
        forall|i: int| 0 <= i < l.len() ==> #[trigger] l[i] != '\n',
    ensures
        split(s + l) == split(s).drop_last().push(split(s).last() + l),
    decreases l.len(),
{
    lemma_split_nonempty(s);
    if l.len() == 0 {
        assert(s + l =~= s);
        assert(split(s).last() + l =~= split(s).last());
        assert(split(s) =~= split(s).drop_last().push(split(s).last() + l));
    } else {
        let m = l.drop_last();
        lemma_split_append(s, m);
        assert((s + l).drop_last() =~= s + m);
        assert((s + l).last() == l.last());
        let b = split(s + m);
        assert(b.last() == split(s).last() + m);
        assert(b.drop_last() =~= split(s).drop_last());
        assert(b.last().push(l.last()) =~= split(s).last() + l);
    }
}

proof fn lemma_split_file(lines: Seq<Seq<char>>)
    requires
        all_canonical(lines),
    ensures
        split(file_text(lines)) == lines.push(Seq::empty()),
    decreases lines.len(),
{
    if lines.len() == 0 {
        assert(split(file_text(lines)) =~= lines.push(Seq::empty()));
    } else {
        let before = lines.drop_last();
        assert forall|i: int| 0 <= i < before.len() implies line::canonical(
            #[trigger] before[i],
        ) by {
            assert(before[i] == lines[i]);
        }
        lemma_split_file(before);
        let f = file_text(before);
        let l = lines.last();
        assert(line::canonical(lines[lines.len() - 1]));
        lemma_split_append(f, l);
        let whole = file_text(lines);
        assert(whole.drop_last() =~= f + l);
        assert(whole.last() == '\n');
        assert(before.push(Seq::empty()).last() + l =~= l);
        assert(split(f + l) =~= lines);
        assert(split(whole) =~= lines.push(Seq::empty()));
    }
}

proof fn lemma_canonical_is_clean(s: Seq<char>)
    requires
        line::canonical(s),
    ensures
        line::clean(s) == s,
        line::normal_line(s) == s,
{
    let flat = s.map_values(
        |c: char|
            if c == '\n' {
                ' '
            } else {
                c
            },
    );
    assert(flat =~= s);
    assert(line::normal_line(s) =~= s);
}

proof fn lemma_lines_among_canonical(lines: Seq<Seq<char>>)
    requires
        all_canonical(lines),
    ensures
        lines_among(lines) == lines,
    decreases lines.len(),
{
    if lines.len() == 0 {
        assert(lines_among(lines) =~= lines);
    } else {
        let before = lines.drop_last();
        assert forall|i: int| 0 <= i < before.len() implies line::canonical(
            #[trigger] before[i],
        ) by {
            assert(before[i] == lines[i]);
        }
        lemma_lines_among_canonical(before);
        assert(line::canonical(lines[lines.len() - 1]));
        lemma_canonical_is_clean(lines.last());
        assert(lines_among(lines) =~= lines);
    }
}

/// What was written reads back: the file of some lines holds those lines.
pub proof fn written_file_reads_back(lines: Seq<Seq<char>>)
    requires
        all_canonical(lines),
    ensures
        task_lines(file_text(lines)) == lines,
{
    lemma_split_file(lines);
    let pieces = lines.push(Seq::empty());
    assert(pieces.drop_last() =~= lines);
    assert(line::clean(pieces.last()).len() == 0) by {
        assert(pieces.last().map_values(
            |c: char|
                if c == '\n' {
                    ' '
                } else {
                    c
                },
        ) =~= Seq::<char>::empty());
    }
    lemma_lines_among_canonical(lines);
}

/// The text with a line break at its end, unless it is empty or has one.
pub open spec fn broken(t: Seq<char>) -> Seq<char> {
    if t.len() > 0 && t.last() != '\n' {
        t.push('\n')
    } else {
        t
    }
}

proof fn lemma_split_joined(s: Seq<char>, l: Seq<char>)
    ensures
        split(s + l) == split(s).drop_last().push(split(s).last() + split(l)[0]) + split(
            l,
        ).drop_first(),
    decreases l.len(),
{
    lemma_split_nonempty(s);
    lemma_split_nonempty(l);
    let want = split(s).drop_last().push(split(s).last() + split(l)[0]) + split(l).drop_first();
    if l.len() == 0 {
        assert(s + l =~= s);
        assert(split(s).last() + split(l)[0] =~= split(s).last());
        assert(split(s) =~= want);
    } else {
        let m = l.drop_last();
        lemma_split_joined(s, m);
        lemma_split_nonempty(m);
        assert((s + l).drop_last() =~= s + m);
        assert((s + l).last() == l.last());
        if l.last() == '\n' {
            assert(split(s + l) =~= want);
        } else {
            let b = split(s + m);
            if split(m).len() == 1 {
                assert(b.last() == split(s).last() + split(m)[0]);
                assert(b.last().push(l.last()) =~= split(s).last() + split(l)[0]);
            } else {
                assert(b.last() == split(m).last());
            }
            assert(split(s + l) =~= want);
        }
    }
}

proof fn lemma_lines_among_sum(a: Seq<Seq<char>>, b: Seq<Seq<char>>)
    ensures
        lines_among(a + b) == lines_among(a) + lines_among(b),
    decreases b.len(),
{
    if b.len() == 0 {
        assert(a + b =~= a);
        assert(lines_among(a) + lines_among(b) =~= lines_among(a));
    } else {
        lemma_lines_among_sum(a, b.drop_last());
        assert((a + b).drop_last() =~= a + b.drop_last());
        assert((a + b).last() == b.last());
        assert(lines_among(a + b) =~= lines_among(a) + lines_among(b));
    }
}

proof fn lemma_no_line(pieces: Seq<Seq<char>>)
    ensures
        lines_among(pieces.push(Seq::empty())) == lines_among(pieces),
{
    let more = pieces.push(Seq::empty());
    assert(more.drop_last() =~= pieces);
    assert(line::clean(more.last()).len() == 0) by {
        assert(more.last().map_values(
            |c: char|
                if c == '\n' {
                    ' '
                } else {
                    c
                },
        ) =~= Seq::<char>::empty());
    }
}

/// Lines appended to a text, after a line break where it needs one, are read
/// after the lines that it had.
pub proof fn appended_lines_read_back(t: Seq<char>, lines: Seq<Seq<char>>)
    requires
        all_canonical(lines),
    ensures
        task_lines(broken(t) + file_text(lines)) == task_lines(t) + lines,
{
    let b = broken(t);
    let f = file_text(lines);
    lemma_split_joined(b, f);
    lemma_split_nonempty(b);
    lemma_split_nonempty(f);
    assert(split(b).last().len() == 0);
    assert(split(b).last() + split(f)[0] =~= split(f)[0]);
    assert(split(b + f) =~= split(b).drop_last() + split(f));
    lemma_lines_among_sum(split(b).drop_last(), split(f));
    written_file_reads_back(lines);
    let head = split(b).drop_last();
    assert(split(b).last() =~= Seq::<char>::empty());
    assert(split(b) =~= head.push(Seq::empty()));
    lemma_no_line(head);
    if b != t {
        assert(b.drop_last() =~= t);
        lemma_no_line(split(t));
    }
}

proof fn lemma_lines_among_all_canonical(pieces: Seq<Seq<char>>)
    ensures
        all_canonical(lines_among(pieces)),
    decreases pieces.len(),
{
    if pieces.len() > 0 {
        lemma_lines_among_all_canonical(pieces.drop_last());
        if line::clean(pieces.last()).len() > 0 {
            line::cleaned_text_makes_canonical_line(pieces.last());
        }
    }
}

/// Every line read from a file is canonical.
pub proof fn read_lines_are_canonical(text: Seq<char>)
    ensures
        all_canonical(task_lines(text)),
{
    lemma_lines_among_all_canonical(split(text));
}

/// A line break is put behind a text that has none there, and behind no other.
pub proof fn a_missing_line_break_is_added(t: Seq<char>)
    ensures
        t.len() == 0 ==> broken(t) == t,
        t.len() > 0 && t[t.len() - 1] == '\n' ==> broken(t) == t,
        t.len() > 0 && t[t.len() - 1] != '\n' ==> broken(t) == t + seq!['\n'],
{
    assert(t.push('\n') =~= t + seq!['\n']);
}

/// A text is read line by line: what stands before a line break and what stands
/// behind it are read by themselves.
pub proof fn texts_are_read_line_by_line(a: Seq<char>, b: Seq<char>)
    ensures
        task_lines(a + seq!['\n'] + b) == task_lines(a) + task_lines(b),
{
    let head = a + seq!['\n'];
    assert(head.drop_last() =~= a);
    assert(head.last() == '\n');
    lemma_split_nonempty(a);
    lemma_split_nonempty(b);
    assert(split(head) == split(a).push(Seq::empty()));
    lemma_split_joined(head, b);
    assert(split(head).drop_last() =~= split(a));
    assert(split(head).last() + split(b)[0] =~= split(b)[0]);
    assert(split(head + b) =~= split(a) + split(b));
    lemma_lines_among_sum(split(a), split(b));
}

/// A text without a line break holds one task, unless it is blank.
pub proof fn a_line_is_one_task(s: Seq<char>)
    requires
        forall|k: int| 0 <= k < s.len() ==> #[trigger] s[k] != '\n',
    ensures
        line::clean(s).len() == 0 ==> task_lines(s) == Seq::<Seq<char>>::empty(),
        line::clean(s).len() > 0 ==> task_lines(s) == seq![line::normal_line(line::clean(s))],
{
    lemma_split_one(s);
    let pieces = split(s);
    assert(pieces.drop_last() =~= Seq::<Seq<char>>::empty());
    assert(lines_among(pieces.drop_last()) =~= Seq::<Seq<char>>::empty());
    if line::clean(s).len() > 0 {
        assert(task_lines(s) =~= seq![line::normal_line(line::clean(s))]);
    }
}

proof fn lemma_split_one(s: Seq<char>)
    requires
        forall|k: int| 0 <= k < s.len() ==> #[trigger] s[k] != '\n',
    ensures
        split(s) == seq![s],
    decreases s.len(),
{
    if s.len() == 0 {
        assert(s =~= Seq::<char>::empty());
    } else {
        let t = s.drop_last();
        assert forall|k: int| 0 <= k < t.len() implies #[trigger] t[k] != '\n' by {
            assert(t[k] == s[k]);
        }
        lemma_split_one(t);
        assert(s[s.len() - 1] != '\n');
        assert(t.push(s.last()) =~= s);
        assert(split(s) =~= seq![s]);
    }
}

/// A file is its lines, each with a line break behind it.
pub proof fn files_are_written_line_by_line(lines: Seq<Seq<char>>, l: Seq<char>)
    ensures
        file_text(Seq::empty()) == Seq::<char>::empty(),
        file_text(lines.push(l)) == file_text(lines) + l + seq!['\n'],
{
    assert(lines.push(l).drop_last() =~= lines);
    assert(file_text(lines.push(l)) =~= file_text(lines) + l + seq!['\n']);
}

fn push_line(tasks: &mut Vec<Task>, piece: &Vec<char>)
    requires
        tasks_wf(old(tasks)@),
    ensures
        tasks_wf(final(tasks)@),
        raws(final(tasks)@) == (if line::clean(piece@).len() == 0 {
            raws(old(tasks)@)
        } else {
            raws(old(tasks)@).push(line::normal_line(line::clean(piece@)))
        }),
{
    let c: Vec<char> = clean_text(piece);
    if c.len() > 0 {
        let raw: Vec<char> = make_line(&c);
        proof {
            line::cleaned_text_makes_canonical_line(piece@);
        }
        tasks.push(Task::from_line(&raw));
        proof {
            assert(raws(tasks@) =~= raws(old(tasks)@).push(raw@));
        }
    }
}

/// The tasks of a file, one per line that is not blank.
pub fn parse_file(text: &str) -> (r: Vec<Task>)
    ensures
        tasks_wf(r@),
        raws(r@) == task_lines(text@),
{
    let s: Vec<char> = chars_of(text);
    let mut tasks: Vec<Task> = Vec::new();
    let mut piece: Vec<char> = Vec::new();
    let mut i: usize = 0;
    let ghost mut pieces: Seq<Seq<char>> = Seq::empty();
    proof {
        assert(s@.take(0) =~= Seq::<char>::empty());
        assert(split(s@.take(0)) =~= pieces.push(piece@));
        assert(raws(tasks@) =~= lines_among(pieces));
    }
    while i < s.len()
        invariant
            i <= s.len(),
            tasks_wf(tasks@),
            split(s@.take(i as int)) == pieces.push(piece@),
            raws(tasks@) == lines_among(pieces),
        decreases s.len() - i,
    {
        let ghost now = s@.take(i as int);
        let ghost next = s@.take(i + 1);
        let ghost cur = piece@;
        proof {
            assert(next.drop_last() =~= now);
            assert(next.last() == s@[i as int]);
            assert(pieces.push(cur).drop_last() =~= pieces);
        }
        if s[i] == '\n' {
            push_line(&mut tasks, &piece);
            piece = Vec::new();
            proof {
                pieces = pieces.push(cur);
                assert(piece@ =~= Seq::<char>::empty());
            }
        } else {
            piece.push(s[i]);
        }
        i += 1;
    }
    push_line(&mut tasks, &piece);
    proof {
        assert(s@.take(s@.len() as int) =~= s@);
        assert(pieces.push(piece@).drop_last() =~= pieces);
    }
    tasks
}

/// The text of a file that holds the given tasks.
pub fn render_file(tasks: &Vec<Task>) -> (r: String)
    ensures
        r@ == file_text(raws(tasks@)),
{
    let mut out: String = String::new();
    let mut i: usize = 0;
    proof {
        assert(raws(tasks@).take(0) =~= Seq::<Seq<char>>::empty());
        assert(out@ =~= file_text(raws(tasks@).take(0)));
    }
    while i < tasks.len()
        invariant
            i <= tasks.len(),
            out@ == file_text(raws(tasks@).take(i as int)),
        decreases tasks.len() - i,
    {
        out.append(tasks[i].raw.as_str());
        out.push('\n');
        proof {
            let next = raws(tasks@).take(i + 1);
            assert(next.drop_last() =~= raws(tasks@).take(i as int));
            assert(next.last() == tasks@[i as int].raw@);
        }
        i += 1;
    }
    proof {
        assert(raws(tasks@).take(tasks@.len() as int) =~= raws(tasks@));
    }
    out
}

} // verus!
