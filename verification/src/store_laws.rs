//! What the operations on one file do to its lines, its archive and its inbox.
use crate::date;
use crate::line;
use crate::line_laws;
use crate::outcome::{
    AddOutcome, ArchiveDeleteOutcome, ArchiveOutcome, BulkCompleteOutcome, BulkDeleteOutcome,
    CompleteOutcome, DeleteOutcome, DrainReport, EditOutcome, PriorityOutcome, Reconcile,
    StoreError, TagOutcome, UnarchiveOutcome, UndoOutcome,
};
use crate::positions;
use crate::store;
use crate::store::{FileKind, SlotView, StoreView};
use crate::todo;
use vstd::prelude::*;

verus! {

/// `t` is `s` with other lines: the file holds them, a step back leads to the
/// lines before, and nothing else is touched.
pub open spec fn is_changed(t: StoreView, s: StoreView) -> bool {
    &&& t.file.text == Some(todo::file_text(t.lines))
    &&& t.synced == todo::file_text(t.lines)
    &&& t.file.path == s.file.path
    &&& t.file.writable == s.file.writable
    &&& t.history == s.history.push(s.lines)
    &&& t.done_file == s.done_file
    &&& t.inbox == s.inbox
    &&& t.archive == s.archive
    &&& t.today == s.today
}

/// `t` is `s` with other lines, written to the file, and no step back.
pub open spec fn is_settled(t: StoreView, s: StoreView) -> bool {
    &&& t.file.text == Some(todo::file_text(t.lines))
    &&& t.synced == todo::file_text(t.lines)
    &&& t.file.path == s.file.path
    &&& t.file.writable == s.file.writable
    &&& t.history.len() == 0
    &&& t.today == s.today
}

/// `t` is `s` with what the file holds taken over, and no step back.
pub open spec fn is_reloaded(t: StoreView, s: StoreView) -> bool {
    &&& s.file.text is Some
    &&& t.lines == todo::task_lines(s.file.text->0)
    &&& t.synced == s.file.text->0
    &&& t.history.len() == 0
    &&& t.file == s.file
    &&& t.done_file == s.done_file
    &&& t.inbox == s.inbox
    &&& t.archive == s.archive
    &&& t.today == s.today
}

/// Why a change of a file is not made: it cannot be read, it holds something
/// else than was last read or written, or it cannot be written. In the second
/// case what it holds is taken over; in the others nothing changes.
pub open spec fn is_stopped(
    s: StoreView,
    t: StoreView,
    aborted: Option<Reconcile>,
    error: Option<StoreError>,
) -> bool {
    match s.file.text {
        None => aborted == Some(Reconcile::ReadError) && error is None && t == s,
        Some(text) => if text != s.synced {
            aborted == Some(Reconcile::Reloaded) && error is None && is_reloaded(t, s)
        } else if !s.file.writable {
            aborted is None && error == Some(StoreError::NotWritable) && t == s
        } else {
            false
        },
    }
}

/// The file is as it was last read or written and can be written.
pub open spec fn is_ready(s: StoreView) -> bool {
    s.file.text == Some(s.synced) && s.file.writable
}

/// Ticking a task off, or opening it again, changes its line as its tick says,
/// and a recurring task leaves its next occurrence behind the last line.
pub proof fn toggling(s: StoreView, i: int)
    requires
        0 <= i < s.lines.len(),
    ensures
        ({
            let (t, out) = s.toggle(i);
            match out {
                CompleteOutcome::Completed { spawned } => {
                    &&& is_ready(s) && is_changed(t, s)
                    &&& s.lines[i][3] == ' '
                    &&& t.lines.len() == s.lines.len() + (if spawned {
                        1int
                    } else {
                        0int
                    })
                    &&& forall|k: int|
                        0 <= k < s.lines.len() && k != i ==> #[trigger] t.lines[k] == s.lines[k]
                    &&& t.lines[i] == line::completed(s.lines[i], s.today)
                    &&& spawned <==> line::next_occurrence(s.lines[i], s.today) is Some
                    &&& spawned ==> Some(t.lines[s.lines.len() as int]) == line::next_occurrence(
                        s.lines[i],
                        s.today,
                    )
                },
                CompleteOutcome::Reopened => {
                    &&& is_ready(s) && is_changed(t, s)
                    &&& s.lines[i][3] != ' '
                    &&& t.lines.len() == s.lines.len()
                    &&& forall|k: int|
                        0 <= k < s.lines.len() && k != i ==> #[trigger] t.lines[k] == s.lines[k]
                    &&& t.lines[i] == line::reopened(s.lines[i])
                },
                CompleteOutcome::Aborted(r) => is_stopped(s, t, Some(r), None),
                CompleteOutcome::Error(e) => is_stopped(s, t, None, Some(e)),
                CompleteOutcome::OutOfRange => false,
            }
        }),
{
}

/// The next priority changes the task's line alone, and is the one reported.
pub proof fn prioritizing(s: StoreView, i: int)
    requires
        0 <= i < s.lines.len(),
        line::canonical(s.lines[i]),
    ensures
        ({
            let (t, out) = s.prioritize(i);
            match out {
                PriorityOutcome::Changed { priority } => {
                    &&& is_ready(s) && is_changed(t, s)
                    &&& t.lines.len() == s.lines.len()
                    &&& forall|k: int|
                        0 <= k < s.lines.len() && k != i ==> #[trigger] t.lines[k] == s.lines[k]
                    &&& t.lines[i] == line::reprioritized(s.lines[i])
                    &&& priority == (match line::parts_of(s.lines[i]).priority {
                        None => Some('A'),
                        Some('A') => Some('B'),
                        Some('B') => Some('C'),
                        _ => None,
                    })
                },
                PriorityOutcome::Aborted(r) => is_stopped(s, t, Some(r), None),
                PriorityOutcome::Error(e) => is_stopped(s, t, None, Some(e)),
                PriorityOutcome::OutOfRange => false,
            }
        }),
{
}

/// Deleting takes out the task's line; those behind it move up.
pub proof fn deleting(s: StoreView, i: int)
    requires
        0 <= i < s.lines.len(),
    ensures
        ({
            let (t, out) = s.remove(i);
            match out {
                DeleteOutcome::Deleted => {
                    &&& is_ready(s) && is_changed(t, s)
                    &&& t.lines.len() == s.lines.len() - 1
                    &&& forall|k: int| 0 <= k < i ==> #[trigger] t.lines[k] == s.lines[k]
                    &&& forall|k: int| i <= k < t.lines.len() ==> #[trigger] t.lines[k]
                        == s.lines[k + 1]
                },
                DeleteOutcome::Aborted(r) => is_stopped(s, t, Some(r), None),
                DeleteOutcome::Error(e) => is_stopped(s, t, None, Some(e)),
                DeleteOutcome::OutOfRange => false,
            }
        }),
{
}

/// An edit puts the cleaned text in place of the task's line; a blank text
/// changes nothing.
pub proof fn editing(s: StoreView, i: int, text: Seq<char>)
    requires
        0 <= i < s.lines.len(),
    ensures
        ({
            let (t, out) = s.edit(i, text);
            match out {
                EditOutcome::Edited => {
                    &&& is_ready(s) && is_changed(t, s)
                    &&& t.lines.len() == s.lines.len()
                    &&& forall|k: int|
                        0 <= k < s.lines.len() && k != i ==> #[trigger] t.lines[k] == s.lines[k]
                    &&& t.lines[i] == line::normal_line(line::clean(text))
                    &&& line::clean(text).len() > 0
                },
                EditOutcome::Empty => line::clean(text).len() == 0 && t == s,
                EditOutcome::Aborted(r) => is_stopped(s, t, Some(r), None),
                EditOutcome::Error(e) => is_stopped(s, t, None, Some(e)),
                EditOutcome::OutOfRange => false,
            }
        }),
        line::clean(text).len() == 0 ==> s.edit(i, text).1 is Empty,
{
}

/// A new task stands behind the last line; a blank text changes nothing.
pub proof fn adding(s: StoreView, text: Seq<char>)
    ensures
        ({
            let (t, out) = s.add(text);
            match out {
                AddOutcome::Added => {
                    &&& is_ready(s) && is_changed(t, s)
                    &&& t.lines.len() == s.lines.len() + 1
                    &&& forall|k: int|
                        0 <= k < s.lines.len() ==> #[trigger] t.lines[k] == s.lines[k]
                    &&& t.lines[s.lines.len() as int] == line::normal_line(line::clean(text))
                    &&& line::clean(text).len() > 0
                },
                AddOutcome::Empty => line::clean(text).len() == 0 && t == s,
                AddOutcome::Aborted(r) => is_stopped(s, t, Some(r), None),
                AddOutcome::Error(e) => is_stopped(s, t, None, Some(e)),
            }
        }),
        line::clean(text).len() == 0 ==> s.add(text).1 is Empty,
{
}

/// A tag that the body does not have is added behind the line; one that it has
/// is taken out where that is asked for and leaves something, and kept
/// otherwise. A blank name changes nothing.
pub proof fn tagging(s: StoreView, i: int, sign: char, name: Seq<char>, toggle: bool)
    requires
        0 <= i < s.lines.len(),
    ensures
        ({
            let (t, out) = s.retag(i, sign, name, toggle);
            let word = line::tag_word(sign, name);
            let p = line::parts_of(s.lines[i]);
            let at = line::find_word(p.body, word, 0, true);
            match out {
                TagOutcome::Added => {
                    &&& is_ready(s) && is_changed(t, s)
                    &&& t.lines.len() == s.lines.len()
                    &&& forall|k: int|
                        0 <= k < s.lines.len() && k != i ==> #[trigger] t.lines[k] == s.lines[k]
                    &&& at is None
                    &&& t.lines[i] == s.lines[i] + seq![' '] + word
                },
                TagOutcome::Removed => {
                    &&& is_ready(s) && is_changed(t, s)
                    &&& t.lines.len() == s.lines.len()
                    &&& forall|k: int|
                        0 <= k < s.lines.len() && k != i ==> #[trigger] t.lines[k] == s.lines[k]
                    &&& toggle && at is Some
                    &&& t.lines[i] == line::line_of(
                        line::PartsView {
                            body: line::without_word(p.body, at->0, word.len() as int),
                            ..p
                        },
                    )
                },
                TagOutcome::Kept => is_ready(s) && t == s && at is Some && (toggle
                    ==> line::without_word(p.body, at->0, word.len() as int).len() == 0),
                TagOutcome::Empty => word.len() == 1 && t == s,
                TagOutcome::Aborted(r) => is_stopped(s, t, Some(r), None),
                TagOutcome::Error(e) => is_stopped(s, t, None, Some(e)),
                TagOutcome::OutOfRange => false,
            }
        }),
        line::tag_word(sign, name).len() == 1 ==> s.retag(i, sign, name, toggle).1 is Empty,
{
    let word = line::tag_word(sign, name);
    assert(line::with_word(s.lines[i], word) =~= s.lines[i] + seq![' '] + word);
}

/// A task that is not there is reported as such, and nothing changes.
pub proof fn a_task_that_is_not_there(
    s: StoreView,
    i: int,
    text: Seq<char>,
    sign: char,
    toggle: bool,
)
    requires
        i >= s.lines.len(),
    ensures
        s.toggle(i) == (s, CompleteOutcome::OutOfRange),
        s.prioritize(i) == (s, PriorityOutcome::OutOfRange),
        s.remove(i) == (s, DeleteOutcome::OutOfRange),
        s.edit(i, text) == (s, EditOutcome::OutOfRange),
        s.retag(i, sign, text, toggle) == (s, TagOutcome::OutOfRange),
{
}

/// A step back gives the file the lines before the last change, and only that
/// change is forgotten; with none left nothing happens.
pub proof fn stepping_back(s: StoreView)
    ensures
        ({
            let (t, out) = s.undone();
            match out {
                UndoOutcome::Undone => {
                    &&& is_ready(s) && s.history.len() > 0
                    &&& t.lines == s.history[s.history.len() - 1]
                    &&& t.history.len() == s.history.len() - 1
                    &&& forall|k: int|
                        0 <= k < t.history.len() ==> #[trigger] t.history[k] == s.history[k]
                    &&& t.file.text == Some(todo::file_text(t.lines))
                    &&& t.synced == todo::file_text(t.lines)
                    &&& t.done_file == s.done_file && t.inbox == s.inbox && t.archive == s.archive
                },
                UndoOutcome::Nothing => s.history.len() == 0 && t == s,
                UndoOutcome::Aborted(r) => is_stopped(s, t, Some(r), None),
                UndoOutcome::Error(e) => is_stopped(s, t, None, Some(e)),
            }
        }),
        s.history.len() == 0 ==> s.undone().1 is Nothing,
{
}

/// Reconciling takes over what the file holds when that is something else than
/// was last read or written.
pub proof fn reconciling(s: StoreView)
    ensures
        ({
            let (t, out) = s.reconciled();
            match out {
                Reconcile::Unchanged => s.file.text == Some(s.synced) && t == s,
                Reconcile::Reloaded => s.file.text is Some && s.file.text->0 != s.synced
                    && is_reloaded(t, s),
                Reconcile::ReadError => s.file.text is None && t == s,
            }
        }),
{
}

// ---- many tasks at once ----

/// `i` was chosen and its line is open.
pub open spec fn is_taken_on(lines: Seq<Seq<char>>, locals: Seq<usize>, i: int) -> bool {
    locals.contains(i as usize) && lines[i][3] == ' '
}

/// `i` was chosen, its line is open, and it recurs.
pub open spec fn is_repeated(
    lines: Seq<Seq<char>>,
    locals: Seq<usize>,
    today: Seq<char>,
    i: int,
) -> bool {
    is_taken_on(lines, locals, i) && line::next_occurrence(lines[i], today) is Some
}

proof fn lemma_complete_all(lines: Seq<Seq<char>>, locals: Seq<usize>, today: Seq<char>, k: nat) -> (
    at: (Seq<int>, Seq<int>))
    requires
        k <= lines.len() <= usize::MAX,
    ensures
        ({
            let out = store::complete_all(lines, locals, today, k);
            let n = lines.len() as int;
            &&& positions::names_exactly(
                at.0,
                k as int,
                |i: int| is_taken_on(lines, locals, i),
            )
            &&& positions::names_exactly(
                at.1,
                k as int,
                |i: int| is_repeated(lines, locals, today, i),
            )
            &&& at.0.len() == store::picked(lines, locals, k)
            &&& at.1.len() == store::recurring(lines, locals, today, k)
            &&& out.len() == n + at.1.len()
            &&& forall|i: int|
                0 <= i < n ==> #[trigger] out[i] == (if i < k && is_taken_on(lines, locals, i) {
                    line::completed(lines[i], today)
                } else {
                    lines[i]
                })
            &&& forall|j: int|
                0 <= j < at.1.len() ==> Some(#[trigger] out[n + j]) == line::next_occurrence(
                    lines[at.1[j]],
                    today,
                )
        }),
    decreases k,
{
    let taken = |i: int| is_taken_on(lines, locals, i);
    let again = |i: int| is_repeated(lines, locals, today, i);
    let n = lines.len() as int;
    if k == 0 {
        (Seq::empty(), Seq::empty())
    } else {
        let i = k - 1;
        let (a, b) = lemma_complete_all(lines, locals, today, i as nat);
        let before = store::complete_all(lines, locals, today, i as nat);
        let out = store::complete_all(lines, locals, today, k);
        assert(before[i] == lines[i]);
        assert(store::picks(lines, locals, i) == taken(i));
        let a2 = if taken(i) {
            positions::lemma_keep_next(a, i, taken);
            a.push(i)
        } else {
            positions::lemma_skip_next(a, i, taken);
            a
        };
        let b2 = if again(i) {
            positions::lemma_keep_next(b, i, again);
            b.push(i)
        } else {
            positions::lemma_skip_next(b, i, again);
            b
        };
        assert forall|j: int| 0 <= j < n implies #[trigger] out[j] == (if j < k && is_taken_on(
            lines,
            locals,
            j,
        ) {
            line::completed(lines[j], today)
        } else {
            lines[j]
        }) by {
            assert(before[j] == (if j < i && is_taken_on(lines, locals, j) {
                line::completed(lines[j], today)
            } else {
                lines[j]
            }));
        }
        assert forall|j: int| 0 <= j < b2.len() implies Some(#[trigger] out[n + j])
            == line::next_occurrence(lines[b2[j]], today) by {
            if j < b.len() {
                assert(b2[j] == b[j]);
                assert(Some(before[n + j]) == line::next_occurrence(lines[b[j]], today));
                assert(out[n + j] == before[n + j]);
            }
        }
        (a2, b2)
    }
}

/// Completing many tasks ticks off exactly the chosen ones that are open, each
/// at its place, and puts the next occurrences of those that recur behind the
/// last line, in order; the report counts both.
pub proof fn completing_many(s: StoreView, locals: Seq<usize>) -> (at: (Seq<int>, Seq<int>))
    requires
        s.lines.len() <= usize::MAX,
    ensures
        positions::names_exactly(
            at.0,
            s.lines.len() as int,
            |i: int| is_taken_on(s.lines, locals, i),
        ),
        positions::names_exactly(
            at.1,
            s.lines.len() as int,
            |i: int| is_repeated(s.lines, locals, s.today, i),
        ),
        ({
            let (t, out) = s.complete_some(locals);
            let n = s.lines.len() as int;
            match out {
                BulkCompleteOutcome::Done { completed, spawned } => {
                    &&& is_ready(s) && is_changed(t, s)
                    &&& completed == at.0.len() && spawned == at.1.len()
                    &&& at.0.len() > 0
                    &&& t.lines.len() == n + at.1.len()
                    &&& forall|i: int|
                        0 <= i < n ==> #[trigger] t.lines[i] == (if is_taken_on(
                            s.lines,
                            locals,
                            i,
                        ) {
                            line::completed(s.lines[i], s.today)
                        } else {
                            s.lines[i]
                        })
                    &&& forall|j: int|
                        0 <= j < at.1.len() ==> Some(#[trigger] t.lines[n + j])
                            == line::next_occurrence(s.lines[at.1[j]], s.today)
                },
                BulkCompleteOutcome::NothingToComplete => s.file.text == Some(s.synced) && t == s
                    && at.0.len() == 0,
                BulkCompleteOutcome::Aborted(r) => is_stopped(s, t, Some(r), None),
                BulkCompleteOutcome::Error(e) => is_stopped(s, t, None, Some(e)) && at.0.len() > 0,
            }
        }),
{
    let at = lemma_complete_all(s.lines, locals, s.today, s.lines.len());
    store::bulk_counts_fit(s, locals);
    positions::lemma_count(at.0, s.lines.len() as int, |i: int| is_taken_on(s.lines, locals, i));
    positions::lemma_count(at.1, s.lines.len() as int, |i: int| is_repeated(s.lines, locals, s.today, i));
    at
}

/// Deleting many tasks keeps exactly the lines at the positions that were not
/// chosen, in order; the report counts the others.
pub proof fn deleting_many(s: StoreView, locals: Seq<usize>) -> (at: Seq<int>)
    requires
        s.lines.len() <= usize::MAX,
    ensures
        positions::names_exactly(at, s.lines.len() as int, |i: int| !locals.contains(i as usize)),
        ({
            let (t, out) = s.remove_some(locals);
            match out {
                BulkDeleteOutcome::Done { deleted } => {
                    &&& is_ready(s) && is_changed(t, s)
                    &&& deleted == s.lines.len() - at.len()
                    &&& at.len() < s.lines.len()
                    &&& positions::holds_at(t.lines, s.lines, at)
                },
                BulkDeleteOutcome::Nothing => s.file.text == Some(s.synced) && t == s && at.len()
                    == s.lines.len(),
                BulkDeleteOutcome::Aborted(r) => is_stopped(s, t, Some(r), None),
                BulkDeleteOutcome::Error(e) => is_stopped(s, t, None, Some(e)) && at.len()
                    < s.lines.len(),
            }
        }),
{
    let at = lemma_left_over(s.lines, locals, s.lines.len());
    positions::lemma_count(at, s.lines.len() as int, |i: int| !locals.contains(i as usize));
    at
}

/// What is left over stands at the positions that were not chosen.
pub proof fn lemma_left_over(lines: Seq<Seq<char>>, locals: Seq<usize>, k: nat) -> (at: Seq<int>)
    requires
        k <= lines.len() <= usize::MAX,
    ensures
        positions::names_exactly(at, k as int, |i: int| !locals.contains(i as usize)),
        positions::holds_at(store::left_over(lines, locals, k), lines, at),
    decreases k,
{
    let keep = |i: int| !locals.contains(i as usize);
    if k == 0 {
        Seq::empty()
    } else {
        let at = lemma_left_over(lines, locals, (k - 1) as nat);
        let less = store::left_over(lines, locals, (k - 1) as nat);
        if keep(k - 1) {
            positions::lemma_keep_next(at, k - 1, keep);
            let more = at.push(k - 1);
            assert(positions::holds_at(less.push(lines[k - 1]), lines, more));
            more
        } else {
            positions::lemma_skip_next(at, k - 1, keep);
            at
        }
    }
}

// ---- the archive and the inbox ----

proof fn lemma_with_done(lines: Seq<Seq<char>>, done: bool) -> (at: Seq<int>)
    ensures
        positions::names_exactly(
            at,
            lines.len() as int,
            |i: int| (lines[i][3] != ' ') == done,
        ),
        positions::holds_at(store::with_done(lines, done), lines, at),
    decreases lines.len(),
{
    let keep = |i: int| (lines[i][3] != ' ') == done;
    if lines.len() == 0 {
        Seq::empty()
    } else {
        let n = lines.len() - 1;
        let rest = lines.drop_last();
        let at = lemma_with_done(rest, done);
        let keep_rest = |i: int| (rest[i][3] != ' ') == done;
        assert forall|i: int| 0 <= i < n implies #[trigger] keep_rest(i) == keep(i) by {
            assert(rest[i] == lines[i]);
        }
        positions::lemma_same_keep(at, n, keep_rest, keep);
        let less = store::with_done(rest, done);
        assert forall|j: int| 0 <= j < at.len() implies #[trigger] less[j] == lines[at[j]] by {
            assert(less[j] == rest[at[j]]);
        }
        if keep(n) {
            positions::lemma_keep_next(at, n, keep);
            let more = at.push(n);
            assert(positions::holds_at(less.push(lines[n]), lines, more));
            more
        } else {
            positions::lemma_skip_next(at, n, keep);
            at
        }
    }
}

/// Archiving takes exactly the ticked lines out of the file, in order, and puts
/// them behind what the archive's file held; the report counts them.
pub proof fn archiving(s: StoreView) -> (at: (Seq<int>, Seq<int>))
    requires
        s.lines.len() <= usize::MAX,
        todo::all_canonical(s.lines),
    ensures
        positions::names_exactly(at.0, s.lines.len() as int, |i: int| s.lines[i][3] != ' '),
        positions::names_exactly(at.1, s.lines.len() as int, |i: int| s.lines[i][3] == ' '),
        ({
            let (t, out) = s.archive_done();
            match out {
                ArchiveOutcome::Archived { count } => {
                    let old = todo::task_lines(s.done_file.text->0);
                    &&& is_ready(s) && s.done_file.writable && s.done_file.text is Some
                    &&& is_settled(t, s)
                    &&& count == at.0.len() && at.0.len() > 0
                    &&& positions::holds_at(t.lines, s.lines, at.1)
                    &&& t.archive.lines.len() == old.len() + at.0.len()
                    &&& forall|k: int| 0 <= k < old.len() ==> #[trigger] t.archive.lines[k] == old[k]
                    &&& forall|j: int|
                        0 <= j < at.0.len() ==> #[trigger] t.archive.lines[old.len() + j]
                            == s.lines[at.0[j]]
                    &&& t.done_file.text == Some(t.archive.text)
                    &&& todo::task_lines(t.archive.text) == t.archive.lines
                    &&& t.archive.text == todo::broken(s.done_file.text->0) + todo::file_text(
                        Seq::new(at.0.len(), |j: int| s.lines[at.0[j]]),
                    )
                    &&& t.inbox == s.inbox
                },
                ArchiveOutcome::Nothing => s.file.text == Some(s.synced) && t == s && at.0.len()
                    == 0,
                ArchiveOutcome::Aborted(r) => is_stopped(s, t, Some(r), None),
                ArchiveOutcome::Error(e) => s.file.text == Some(s.synced) && t == s && at.0.len() > 0
                    && (e == StoreError::NotWritable <==> !s.file.writable
                    || !s.done_file.writable) && (e == StoreError::NotReadable
                    ==> s.done_file.text is None),
            }
        }),
{
    let a = lemma_with_done(s.lines, true);
    let b = lemma_with_done(s.lines, false);
    let done = store::with_done(s.lines, true);
    let keep_a = |i: int| (s.lines[i][3] != ' ') == true;
    let keep_b = |i: int| (s.lines[i][3] != ' ') == false;
    let n = s.lines.len() as int;
    positions::lemma_same_keep(a, n, keep_a, |i: int| s.lines[i][3] != ' ');
    positions::lemma_same_keep(b, n, keep_b, |i: int| s.lines[i][3] == ' ');
    positions::lemma_count(a, n, keep_a);
    assert forall|j: int| 0 <= j < done.len() implies line::canonical(#[trigger] done[j]) by {
        assert(done[j] == s.lines[a[j]]);
        assert(0 <= a[j] < n);
    }
    if s.archive_done().1 is Archived {
        todo::appended_lines_read_back(s.done_file.text->0, done);
        let t = s.archive_done().0;
        let old = todo::task_lines(s.done_file.text->0);
        assert(done =~= Seq::new(a.len(), |j: int| s.lines[a[j]]));
        assert(t.archive.lines == old + done);
        assert forall|j: int| 0 <= j < a.len() implies #[trigger] t.archive.lines[old.len() + j]
            == s.lines[a[j]] by {
            assert(t.archive.lines[old.len() + j] == done[j]);
        }
    }
    (a, b)
}

/// Restoring takes the line out of the archive and puts it behind the last line
/// of the file; both files are written.
pub proof fn restoring(s: StoreView, i: int)
    requires
        0 <= i < s.archive.lines.len(),
    ensures
        ({
            let (t, out) = s.restore(i);
            match out {
                UnarchiveOutcome::Restored => {
                    &&& is_ready(s) && s.done_file.text == Some(s.archive.text)
                        && s.done_file.writable
                    &&& is_settled(t, s)
                    &&& t.lines.len() == s.lines.len() + 1
                    &&& forall|k: int|
                        0 <= k < s.lines.len() ==> #[trigger] t.lines[k] == s.lines[k]
                    &&& t.lines[s.lines.len() as int] == s.archive.lines[i]
                    &&& t.archive.lines.len() == s.archive.lines.len() - 1
                    &&& forall|k: int|
                        0 <= k < i ==> #[trigger] t.archive.lines[k] == s.archive.lines[k]
                    &&& forall|k: int|
                        i <= k < t.archive.lines.len() ==> #[trigger] t.archive.lines[k]
                            == s.archive.lines[k + 1]
                    &&& t.done_file.text == Some(todo::file_text(t.archive.lines))
                    &&& t.archive.text == todo::file_text(t.archive.lines)
                    &&& t.inbox == s.inbox
                },
                UnarchiveOutcome::OutOfRange => false,
                UnarchiveOutcome::Aborted(r) => if s.file.text == Some(s.synced) {
                    &&& s.file.writable
                    &&& s.done_file.text is Some && s.done_file.text->0 != s.archive.text
                    &&& r == Reconcile::Reloaded
                    &&& t.lines == s.lines
                    &&& t.archive.lines == todo::task_lines(s.done_file.text->0)
                } else {
                    is_stopped(s, t, Some(r), None)
                },
                UnarchiveOutcome::Error(e) => t == s && s.file.text == Some(s.synced) && (
                e == StoreError::NotReadable ==> s.done_file.text is None) && (e
                    == StoreError::NotWritable ==> !s.file.writable || !s.done_file.writable),
            }
        }),
        is_ready(s) && s.done_file.text == Some(s.archive.text) && s.done_file.writable
            ==> s.restore(i).1 is Restored,
{
}

/// Deleting from the archive takes out that line and writes the archive's file;
/// the tasks stay.
pub proof fn deleting_from_the_archive(s: StoreView, i: int)
    requires
        0 <= i < s.archive.lines.len(),
    ensures
        ({
            let (t, out) = s.archive_remove(i);
            match out {
                ArchiveDeleteOutcome::Deleted => {
                    &&& s.done_file.text == Some(s.archive.text) && s.done_file.writable
                    &&& t.archive.lines.len() == s.archive.lines.len() - 1
                    &&& forall|k: int|
                        0 <= k < i ==> #[trigger] t.archive.lines[k] == s.archive.lines[k]
                    &&& forall|k: int|
                        i <= k < t.archive.lines.len() ==> #[trigger] t.archive.lines[k]
                            == s.archive.lines[k + 1]
                    &&& t.done_file.text == Some(todo::file_text(t.archive.lines))
                    &&& t.archive.text == todo::file_text(t.archive.lines)
                    &&& t.lines == s.lines && t.file == s.file && t.inbox == s.inbox && t.history
                        == s.history && t.synced == s.synced
                },
                ArchiveDeleteOutcome::OutOfRange => false,
                ArchiveDeleteOutcome::Aborted(r) => {
                    &&& s.done_file.text is Some && s.done_file.text->0 != s.archive.text
                    &&& r == Reconcile::Reloaded
                    &&& t.archive.lines == todo::task_lines(s.done_file.text->0)
                    &&& t.archive.text == s.done_file.text->0
                    &&& t.lines == s.lines
                },
                ArchiveDeleteOutcome::Error(e) => t == s && (e == StoreError::NotReadable
                    <==> s.done_file.text is None) && (e == StoreError::NotWritable
                    ==> !s.done_file.writable),
            }
        }),
        s.done_file.text == Some(s.archive.text) && s.done_file.writable ==> s.archive_remove(
            i,
        ).1 is Deleted,
{
}

/// A line of the archive that is not there is reported as such.
pub proof fn an_archived_task_that_is_not_there(s: StoreView, i: int)
    requires
        i >= s.archive.lines.len(),
    ensures
        s.restore(i) == (s, UnarchiveOutcome::OutOfRange),
        s.archive_remove(i) == (s, ArchiveDeleteOutcome::OutOfRange),
{
}

/// Looking at the archive takes over what its file holds when that is something
/// else than was last read or written, and tells so.
pub proof fn looking_at_the_archive(s: StoreView)
    ensures
        ({
            let (t, changed) = s.polled();
            &&& changed <==> s.done_file.text is Some && s.done_file.text->0 != s.archive.text
            &&& !changed ==> t == s
            &&& changed ==> {
                &&& t.archive.lines == todo::task_lines(s.done_file.text->0)
                &&& t.archive.text == s.done_file.text->0
                &&& t.done_file == s.done_file
                &&& t.lines == s.lines && t.file == s.file && t.history == s.history
            }
        }),
{
    let (t, changed) = s.polled();
    if changed {
        assert(t.done_file =~= s.done_file);
    }
}

/// Draining puts the tasks of the inbox behind the last line, in order, and
/// empties the inbox; the report counts them.
pub proof fn draining(s: StoreView)
    requires
        s.inbox.text matches Some(t) ==> todo::task_lines(t).len() <= usize::MAX,
    ensures
        ({
            let (t, out) = s.drain();
            let new = todo::task_lines(s.inbox.text->0);
            match out {
                DrainReport::Drained { count } => {
                    &&& is_ready(s) && s.inbox.text is Some && s.inbox.writable
                    &&& is_settled(t, s)
                    &&& count == new.len() && new.len() > 0
                    &&& t.lines.len() == s.lines.len() + new.len()
                    &&& forall|k: int|
                        0 <= k < s.lines.len() ==> #[trigger] t.lines[k] == s.lines[k]
                    &&& forall|j: int|
                        0 <= j < new.len() ==> #[trigger] t.lines[s.lines.len() + j] == new[j]
                    &&& t.inbox.text == Some(Seq::<char>::empty())
                    &&& t.inbox.path == s.inbox.path
                    &&& t.archive == s.archive && t.done_file == s.done_file
                },
                DrainReport::Nothing => s.inbox.text is Some && new.len() == 0 && t == s,
                DrainReport::Aborted(r) => is_stopped(s, t, Some(r), None) && new.len() > 0,
                DrainReport::Error(e) => t == s && (e == StoreError::NotReadable
                    <==> s.inbox.text is None) && (e == StoreError::NotWritable
                    ==> !s.file.writable || !s.inbox.writable),
            }
        }),
        s.inbox.text is Some && todo::task_lines(s.inbox.text->0).len() > 0 && is_ready(s)
            && s.inbox.writable ==> s.drain().1 is Drained,
{
}

/// A new store reads its lines from the text, has nothing to step back to, and
/// an archive that is still to be read.
pub proof fn a_new_store_reads_its_text(
    path: Seq<Seq<char>>,
    done: Seq<Seq<char>>,
    inbox: Seq<Seq<char>>,
    body: Seq<char>,
    today: Seq<char>,
)
    ensures
        ({
            let s = StoreView::fresh(path, done, inbox, body, today);
            &&& s.lines == todo::task_lines(body)
            &&& s.file == (SlotView { path, text: Some(body), writable: true })
            &&& s.done_file.path == done && s.archive.path == done
            &&& s.inbox.path == inbox
            &&& s.synced == body
            &&& s.history.len() == 0
            &&& s.archive.lines.len() == 0
            &&& s.today == today
            &&& is_ready(s)
        }),
{
}

/// Loading a file replaces what is known of that file and of no other, and does
/// not touch the lines.
pub proof fn loading_replaces_one_image(
    s: StoreView,
    which: FileKind,
    text: Option<Seq<char>>,
    writable: bool,
)
    ensures
        ({
            let t = s.loaded(which, text, writable);
            &&& t.lines == s.lines && t.synced == s.synced && t.history == s.history
            &&& t.archive == s.archive && t.today == s.today
            &&& t.file.path == s.file.path && t.done_file.path == s.done_file.path && t.inbox.path
                == s.inbox.path
            &&& which is Todo ==> t.file.text == text && t.file.writable == writable && t.done_file
                == s.done_file && t.inbox == s.inbox
            &&& which is Done ==> t.done_file.text == text && t.done_file.writable == writable
                && t.file == s.file && t.inbox == s.inbox
            &&& which is Inbox ==> t.inbox.text == text && t.inbox.writable == writable && t.file
                == s.file && t.done_file == s.done_file
        }),
{
}

/// A task that is ticked off on a known day and opened again is as it was, and
/// so is every other line; where it recurs, its next occurrence stays.
pub proof fn ticking_off_and_opening_again(s: StoreView, i: int)
    requires
        0 <= i < s.lines.len(),
        line::canonical(s.lines[i]),
        s.lines[i][3] == ' ',
        is_ready(s),
        date::date_in(s.today) is Some,
    ensures
        s.toggle(i).1 is Completed,
        s.toggle(i).0.toggle(i).1 is Reopened,
        ({
            let t = s.toggle(i).0.toggle(i).0;
            &&& forall|k: int| 0 <= k < s.lines.len() ==> #[trigger] t.lines[k] == s.lines[k]
            &&& t.lines.len() == s.toggle(i).0.lines.len()
        }),
{
    line_laws::completed_lines_are_ticked(s.lines[i], s.today);
    line_laws::reopening_undoes_completing(s.lines[i], s.today);
    toggling(s, i);
    toggling(s.toggle(i).0, i);
}

} // verus!
