//! One task file with its archive and its inbox.
//!
//! A store works on images of its files: what each file held when it was last
//! read, and whether it can be written. Whoever owns the disk loads the images
//! before an operation and writes out those that changed after it.
use crate::line;
use crate::line::{
    clean_text, complete_line, cycle_line, drop_word, find, join_line, make_line, make_word,
    reopen_line, spawn_line, split_line, Parts,
};
use crate::outcome::{
    AddOutcome, ArchiveDeleteOutcome, ArchiveOutcome, BulkCompleteOutcome, BulkDeleteOutcome,
    CompleteOutcome, DeleteOutcome, DrainReport, EditOutcome, PriorityOutcome, Reconcile,
    StoreError, TagOutcome, UnarchiveOutcome, UndoOutcome,
};
use crate::path;
use crate::path::TreePath;
use crate::text::{chars_of, same_text};
use crate::todo;
use crate::todo::{parse_file, render_file, Task};
use vstd::prelude::*;

verus! {

/// The image of one file. A file that does not exist reads as empty text; one
/// that cannot be read has none.
#[derive(Debug)]
pub struct FileSlot {
    pub path: TreePath,
    pub text: Option<String>,
    pub writable: bool,
}

#[verifier::ext_equal]
pub struct SlotView {
    pub path: Seq<Seq<char>>,
    pub text: Option<Seq<char>>,
    pub writable: bool,
}

impl View for FileSlot {
    type V = SlotView;

    open spec fn view(&self) -> SlotView {
        SlotView {
            path: self.path@,
            text: todo::opt_text(self.text),
            writable: self.writable,
        }
    }
}

/// The tasks of a `done.md`, as last read or written.
#[derive(Debug)]
pub struct Archive {
    path: TreePath,
    tasks: Vec<Task>,
    text: String,
}

#[verifier::ext_equal]
pub struct ArchiveView {
    pub path: Seq<Seq<char>>,
    pub lines: Seq<Seq<char>>,
    pub text: Seq<char>,
}

impl View for Archive {
    type V = ArchiveView;

    closed spec fn view(&self) -> ArchiveView {
        ArchiveView { path: self.path@, lines: todo::raws(self.tasks@), text: self.text@ }
    }
}

impl Archive {
    pub closed spec fn task_list(&self) -> Seq<Task> {
        self.tasks@
    }

    pub open spec fn wf(&self) -> bool {
        &&& todo::tasks_wf(self.task_list())
        &&& self@.lines == todo::raws(self.task_list())
    }

    /// An archive that holds the given tasks.
    pub fn for_test(tasks: Vec<Task>, text: String, path: TreePath) -> (r: Archive)
        ensures
            r.task_list() == tasks@,
            r@ == (ArchiveView { path: path@, lines: todo::raws(tasks@), text: text@ }),
    {
        Archive { path, tasks, text }
    }

    pub fn path(&self) -> (r: &TreePath)
        ensures
            r@ == self@.path,
    {
        &self.path
    }

    pub fn tasks(&self) -> (r: &[Task])
        ensures
            r@ == self.task_list(),
    {
        self.tasks.as_slice()
    }
}

/// One task file with its archive and its inbox.
#[derive(Debug)]
pub struct Store {
    file: FileSlot,
    done_file: FileSlot,
    inbox: FileSlot,
    tasks: Vec<Task>,
    /// The text of the task file as last read or written.
    synced: String,
    /// Lines before each change that can be undone, the latest last.
    history: Vec<Vec<String>>,
    archive: Archive,
    today: String,
}

#[verifier::ext_equal]
pub struct StoreView {
    pub file: SlotView,
    pub done_file: SlotView,
    pub inbox: SlotView,
    pub lines: Seq<Seq<char>>,
    pub synced: Seq<char>,
    pub history: Seq<Seq<Seq<char>>>,
    pub archive: ArchiveView,
    pub today: Seq<char>,
}

/// The lines of each snapshot.
pub open spec fn snapshots(h: Seq<Vec<String>>) -> Seq<Seq<Seq<char>>> {
    Seq::new(h.len(), |i: int| path::texts(h[i]@))
}

impl View for Store {
    type V = StoreView;

    closed spec fn view(&self) -> StoreView {
        StoreView {
            file: self.file@,
            done_file: self.done_file@,
            inbox: self.inbox@,
            lines: todo::raws(self.tasks@),
            synced: self.synced@,
            history: snapshots(self.history@),
            archive: self.archive@,
            today: self.today@,
        }
    }
}

/// Why a change does not happen.
pub enum Stop {
    Aborted(Reconcile),
    Error(StoreError),
}

impl StoreView {
    /// Every line that the store holds, in use or remembered, is canonical.
    pub open spec fn ok(self) -> bool {
        &&& todo::all_canonical(self.lines)
        &&& todo::all_canonical(self.archive.lines)
        &&& forall|i: int|
            0 <= i < self.history.len() ==> todo::all_canonical(#[trigger] self.history[i])
    }

    /// A new store over a file that holds `body`.
    pub open spec fn fresh(
        path: Seq<Seq<char>>,
        done: Seq<Seq<char>>,
        inbox: Seq<Seq<char>>,
        body: Seq<char>,
        today: Seq<char>,
    ) -> StoreView {
        let blank = Some(Seq::<char>::empty());
        StoreView {
            file: SlotView { path, text: Some(body), writable: true },
            done_file: SlotView { path: done, text: blank, writable: true },
            inbox: SlotView { path: inbox, text: blank, writable: true },
            lines: todo::task_lines(body),
            synced: body,
            history: Seq::empty(),
            archive: ArchiveView { path: done, lines: Seq::empty(), text: Seq::empty() },
            today,
        }
    }

    /// Take over what the file holds when that is not what was last read or
    /// written; the changes made before can then not be undone.
    pub open spec fn reconciled(self) -> (StoreView, Reconcile) {
        match self.file.text {
            None => (self, Reconcile::ReadError),
            Some(t) => if t == self.synced {
                (self, Reconcile::Unchanged)
            } else {
                (
                    StoreView {
                        lines: todo::task_lines(t),
                        synced: t,
                        history: Seq::empty(),
                        ..self
                    },
                    Reconcile::Reloaded,
                )
            },
        }
    }

    /// What stands before every change: the file must be as the store knows
    /// it, and writable.
    pub open spec fn guarded(self) -> (StoreView, Option<Stop>) {
        let (next, found) = self.reconciled();
        if found != Reconcile::Unchanged {
            (next, Some(Stop::Aborted(found)))
        } else if !self.file.writable {
            (next, Some(Stop::Error(StoreError::NotWritable)))
        } else {
            (next, None)
        }
    }

    /// The store with new lines, written to the file.
    pub open spec fn written(self, lines: Seq<Seq<char>>) -> StoreView {
        let t = todo::file_text(lines);
        StoreView { lines, synced: t, file: SlotView { text: Some(t), ..self.file }, ..self }
    }

    /// A change that can be undone.
    pub open spec fn committed(self, lines: Seq<Seq<char>>) -> StoreView {
        StoreView { history: self.history.push(self.lines), ..self.written(lines) }
    }

    /// A change after which earlier ones can not be undone.
    pub open spec fn settled(self, lines: Seq<Seq<char>>) -> StoreView {
        StoreView { history: Seq::empty(), ..self.written(lines) }
    }

    /// The archive with new lines, written to its file.
    pub open spec fn rearchived(self, t: Seq<char>, lines: Seq<Seq<char>>) -> StoreView {
        StoreView {
            archive: ArchiveView { lines, text: t, ..self.archive },
            done_file: SlotView { text: Some(t), ..self.done_file },
            ..self
        }
    }
}

/// Complete the task at `i`; the next occurrence of a recurring one goes to
/// the end.
pub open spec fn complete_at(lines: Seq<Seq<char>>, i: int, today: Seq<char>) -> Seq<Seq<char>> {
    let ticked = lines.update(i, line::completed(lines[i], today));
    match line::next_occurrence(lines[i], today) {
        Some(next) => ticked.push(next),
        None => ticked,
    }
}

/// `i` is among `locals` and its task is open.
pub open spec fn picks(lines: Seq<Seq<char>>, locals: Seq<usize>, i: int) -> bool {
    locals.contains(i as usize) && !line::parts_of(lines[i]).done
}

/// Complete those of the first `k` tasks that are picked.
pub open spec fn complete_all(
    lines: Seq<Seq<char>>,
    locals: Seq<usize>,
    today: Seq<char>,
    k: nat,
) -> Seq<Seq<char>>
    decreases k,
{
    if k == 0 {
        lines
    } else {
        let before = complete_all(lines, locals, today, (k - 1) as nat);
        if picks(lines, locals, k - 1) {
            complete_at(before, k - 1, today)
        } else {
            before
        }
    }
}

/// How many of the first `k` tasks are picked.
pub open spec fn picked(lines: Seq<Seq<char>>, locals: Seq<usize>, k: nat) -> nat
    decreases k,
{
    if k == 0 {
        0
    } else {
        picked(lines, locals, (k - 1) as nat) + (if picks(lines, locals, k - 1) {
            1nat
        } else {
            0
        })
    }
}

/// How many of the first `k` tasks are picked and recur.
pub open spec fn recurring(
    lines: Seq<Seq<char>>,
    locals: Seq<usize>,
    today: Seq<char>,
    k: nat,
) -> nat
    decreases k,
{
    if k == 0 {
        0
    } else {
        recurring(lines, locals, today, (k - 1) as nat) + (if picks(lines, locals, k - 1)
            && line::next_occurrence(lines[k - 1], today) is Some {
            1nat
        } else {
            0
        })
    }
}

/// Those of the first `k` lines that are not among `locals`.
pub open spec fn left_over(lines: Seq<Seq<char>>, locals: Seq<usize>, k: nat) -> Seq<Seq<char>>
    decreases k,
{
    if k == 0 {
        Seq::empty()
    } else {
        let before = left_over(lines, locals, (k - 1) as nat);
        if locals.contains((k - 1) as usize) {
            before
        } else {
            before.push(lines[k - 1])
        }
    }
}

/// Those of the lines that are completed, or those that are not.
pub open spec fn with_done(lines: Seq<Seq<char>>, done: bool) -> Seq<Seq<char>>
    decreases lines.len(),
{
    if lines.len() == 0 {
        Seq::empty()
    } else {
        let before = with_done(lines.drop_last(), done);
        if line::parts_of(lines.last()).done == done {
            before.push(lines.last())
        } else {
            before
        }
    }
}

impl StoreView {
    pub open spec fn toggle(self, i: int) -> (StoreView, CompleteOutcome) {
        if i >= self.lines.len() {
            (self, CompleteOutcome::OutOfRange)
        } else {
            match self.guarded() {
                (next, Some(Stop::Aborted(r))) => (next, CompleteOutcome::Aborted(r)),
                (next, Some(Stop::Error(e))) => (next, CompleteOutcome::Error(e)),
                (next, None) => if line::parts_of(next.lines[i]).done {
                    (
                        next.committed(next.lines.update(i, line::reopened(next.lines[i]))),
                        CompleteOutcome::Reopened,
                    )
                } else {
                    (
                        next.committed(complete_at(next.lines, i, next.today)),
                        CompleteOutcome::Completed {
                            spawned: line::next_occurrence(next.lines[i], next.today) is Some,
                        },
                    )
                },
            }
        }
    }

    pub open spec fn prioritize(self, i: int) -> (StoreView, PriorityOutcome) {
        if i >= self.lines.len() {
            (self, PriorityOutcome::OutOfRange)
        } else {
            match self.guarded() {
                (next, Some(Stop::Aborted(r))) => (next, PriorityOutcome::Aborted(r)),
                (next, Some(Stop::Error(e))) => (next, PriorityOutcome::Error(e)),
                (next, None) => (
                    next.committed(next.lines.update(i, line::reprioritized(next.lines[i]))),
                    PriorityOutcome::Changed {
                        priority: line::priority_after(line::parts_of(next.lines[i]).priority),
                    },
                ),
            }
        }
    }

    pub open spec fn remove(self, i: int) -> (StoreView, DeleteOutcome) {
        if i >= self.lines.len() {
            (self, DeleteOutcome::OutOfRange)
        } else {
            match self.guarded() {
                (next, Some(Stop::Aborted(r))) => (next, DeleteOutcome::Aborted(r)),
                (next, Some(Stop::Error(e))) => (next, DeleteOutcome::Error(e)),
                (next, None) => (next.committed(next.lines.remove(i)), DeleteOutcome::Deleted),
            }
        }
    }

    pub open spec fn edit(self, i: int, text: Seq<char>) -> (StoreView, EditOutcome) {
        if i >= self.lines.len() {
            (self, EditOutcome::OutOfRange)
        } else if line::clean(text).len() == 0 {
            (self, EditOutcome::Empty)
        } else {
            match self.guarded() {
                (next, Some(Stop::Aborted(r))) => (next, EditOutcome::Aborted(r)),
                (next, Some(Stop::Error(e))) => (next, EditOutcome::Error(e)),
                (next, None) => (
                    next.committed(next.lines.update(i, line::normal_line(line::clean(text)))),
                    EditOutcome::Edited,
                ),
            }
        }
    }

    /// Add the word of `sign` and `name` to a line that does not have it; when
    /// `toggle`, take it out of one that has.
    pub open spec fn retag(self, i: int, sign: char, name: Seq<char>, toggle: bool) -> (
        StoreView,
        TagOutcome,
    ) {
        let word = line::tag_word(sign, name);
        if i >= self.lines.len() {
            (self, TagOutcome::OutOfRange)
        } else if word.len() == 1 {
            (self, TagOutcome::Empty)
        } else {
            match self.guarded() {
                (next, Some(Stop::Aborted(r))) => (next, TagOutcome::Aborted(r)),
                (next, Some(Stop::Error(e))) => (next, TagOutcome::Error(e)),
                (next, None) => {
                    let p = line::parts_of(next.lines[i]);
                    match line::find_word(p.body, word, 0, true) {
                        None => (
                            next.committed(
                                next.lines.update(i, line::with_word(next.lines[i], word)),
                            ),
                            TagOutcome::Added,
                        ),
                        Some(at) => {
                            let rest = line::without_word(p.body, at, word.len() as int);
                            if !toggle || rest.len() == 0 {
                                (next, TagOutcome::Kept)
                            } else {
                                (
                                    next.committed(
                                        next.lines.update(
                                            i,
                                            line::line_of(line::PartsView { body: rest, ..p }),
                                        ),
                                    ),
                                    TagOutcome::Removed,
                                )
                            }
                        },
                    }
                },
            }
        }
    }

    pub open spec fn add(self, text: Seq<char>) -> (StoreView, AddOutcome) {
        if line::clean(text).len() == 0 {
            (self, AddOutcome::Empty)
        } else {
            match self.guarded() {
                (next, Some(Stop::Aborted(r))) => (next, AddOutcome::Aborted(r)),
                (next, Some(Stop::Error(e))) => (next, AddOutcome::Error(e)),
                (next, None) => (
                    next.committed(next.lines.push(line::normal_line(line::clean(text)))),
                    AddOutcome::Added,
                ),
            }
        }
    }

    pub open spec fn complete_some(self, locals: Seq<usize>) -> (StoreView, BulkCompleteOutcome) {
        let (next, found) = self.reconciled();
        let n = next.lines.len();
        if found != Reconcile::Unchanged {
            (next, BulkCompleteOutcome::Aborted(found))
        } else if picked(next.lines, locals, n) == 0 {
            (next, BulkCompleteOutcome::NothingToComplete)
        } else if !next.file.writable {
            (next, BulkCompleteOutcome::Error(StoreError::NotWritable))
        } else {
            (
                next.committed(complete_all(next.lines, locals, next.today, n)),
                BulkCompleteOutcome::Done {
                    completed: picked(next.lines, locals, n) as usize,
                    spawned: recurring(next.lines, locals, next.today, n) as usize,
                },
            )
        }
    }

    pub open spec fn remove_some(self, locals: Seq<usize>) -> (StoreView, BulkDeleteOutcome) {
        let (next, found) = self.reconciled();
        let n = next.lines.len();
        let rest = left_over(next.lines, locals, n);
        if found != Reconcile::Unchanged {
            (next, BulkDeleteOutcome::Aborted(found))
        } else if rest.len() == n {
            (next, BulkDeleteOutcome::Nothing)
        } else if !next.file.writable {
            (next, BulkDeleteOutcome::Error(StoreError::NotWritable))
        } else {
            (
                next.committed(rest),
                BulkDeleteOutcome::Done { deleted: (n - rest.len()) as usize },
            )
        }
    }

    pub open spec fn undone(self) -> (StoreView, UndoOutcome) {
        if self.history.len() == 0 {
            (self, UndoOutcome::Nothing)
        } else {
            match self.guarded() {
                (next, Some(Stop::Aborted(r))) => (next, UndoOutcome::Aborted(r)),
                (next, Some(Stop::Error(e))) => (next, UndoOutcome::Error(e)),
                (next, None) => (
                    StoreView {
                        history: next.history.drop_last(),
                        ..next.written(next.history.last())
                    },
                    UndoOutcome::Undone,
                ),
            }
        }
    }

    pub open spec fn archive_done(self) -> (StoreView, ArchiveOutcome) {
        let (next, found) = self.reconciled();
        let done = with_done(next.lines, true);
        if found != Reconcile::Unchanged {
            (next, ArchiveOutcome::Aborted(found))
        } else if done.len() == 0 {
            (next, ArchiveOutcome::Nothing)
        } else if !next.file.writable || !next.done_file.writable {
            (next, ArchiveOutcome::Error(StoreError::NotWritable))
        } else {
            match next.done_file.text {
                None => (next, ArchiveOutcome::Error(StoreError::NotReadable)),
                Some(t) => {
                    let all = todo::broken(t) + todo::file_text(done);
                    (
                        next.rearchived(all, todo::task_lines(all)).settled(
                            with_done(next.lines, false),
                        ),
                        ArchiveOutcome::Archived { count: done.len() as usize },
                    )
                },
            }
        }
    }

    /// Take over what the archive's file holds when that is not what was last
    /// read or written.
    pub open spec fn polled(self) -> (StoreView, bool) {
        match self.done_file.text {
            Some(t) => if t == self.archive.text {
                (self, false)
            } else {
                (self.rearchived(t, todo::task_lines(t)), true)
            },
            None => (self, false),
        }
    }

    /// What stands before every change of the archive alone.
    pub open spec fn archive_guarded(self) -> (StoreView, Option<Stop>) {
        if self.done_file.text is None {
            (self, Some(Stop::Error(StoreError::NotReadable)))
        } else if self.polled().1 {
            (self.polled().0, Some(Stop::Aborted(Reconcile::Reloaded)))
        } else if !self.done_file.writable {
            (self, Some(Stop::Error(StoreError::NotWritable)))
        } else {
            (self, None)
        }
    }

    pub open spec fn archive_without(self, i: int) -> StoreView {
        let rest = self.archive.lines.remove(i);
        self.rearchived(todo::file_text(rest), rest)
    }

    pub open spec fn restore(self, i: int) -> (StoreView, UnarchiveOutcome) {
        if i >= self.archive.lines.len() {
            (self, UnarchiveOutcome::OutOfRange)
        } else {
            match self.guarded() {
                (next, Some(Stop::Aborted(r))) => (next, UnarchiveOutcome::Aborted(r)),
                (next, Some(Stop::Error(e))) => (next, UnarchiveOutcome::Error(e)),
                (next, None) => match next.archive_guarded() {
                    (last, Some(Stop::Aborted(r))) => (last, UnarchiveOutcome::Aborted(r)),
                    (last, Some(Stop::Error(e))) => (last, UnarchiveOutcome::Error(e)),
                    (last, None) => (
                        last.archive_without(i).settled(last.lines.push(last.archive.lines[i])),
                        UnarchiveOutcome::Restored,
                    ),
                },
            }
        }
    }

    pub open spec fn archive_remove(self, i: int) -> (StoreView, ArchiveDeleteOutcome) {
        if i >= self.archive.lines.len() {
            (self, ArchiveDeleteOutcome::OutOfRange)
        } else {
            match self.archive_guarded() {
                (next, Some(Stop::Aborted(r))) => (next, ArchiveDeleteOutcome::Aborted(r)),
                (next, Some(Stop::Error(e))) => (next, ArchiveDeleteOutcome::Error(e)),
                (next, None) => (next.archive_without(i), ArchiveDeleteOutcome::Deleted),
            }
        }
    }

    pub open spec fn drain(self) -> (StoreView, DrainReport) {
        match self.inbox.text {
            None => (self, DrainReport::Error(StoreError::NotReadable)),
            Some(t) => {
                let new = todo::task_lines(t);
                if new.len() == 0 {
                    (self, DrainReport::Nothing)
                } else {
                    match self.guarded() {
                        (next, Some(Stop::Aborted(r))) => (next, DrainReport::Aborted(r)),
                        (next, Some(Stop::Error(e))) => (next, DrainReport::Error(e)),
                        (next, None) => if !next.inbox.writable {
                            (next, DrainReport::Error(StoreError::NotWritable))
                        } else {
                            (
                                StoreView {
                                    inbox: SlotView { text: Some(Seq::empty()), ..next.inbox },
                                    ..next.settled(next.lines + new)
                                },
                                DrainReport::Drained { count: new.len() as usize },
                            )
                        },
                    }
                }
            },
        }
    }
}

proof fn lemma_raws_push(tasks: Seq<Task>, t: Task)
    ensures
        todo::raws(tasks.push(t)) == todo::raws(tasks).push(t.raw@),
{
    assert(todo::raws(tasks.push(t)) =~= todo::raws(tasks).push(t.raw@));
}

proof fn lemma_raws_canonical(tasks: Seq<Task>)
    requires
        todo::tasks_wf(tasks),
    ensures
        todo::all_canonical(todo::raws(tasks)),
{
    assert forall|i: int| 0 <= i < todo::raws(tasks).len() implies line::canonical(
        #[trigger] todo::raws(tasks)[i],
    ) by {
        assert(tasks[i].wf());
    }
}

/// The lines of tasks as strings.
fn snapshot(tasks: &Vec<Task>) -> (r: Vec<String>)
    ensures
        path::texts(r@) == todo::raws(tasks@),
{
    let mut out: Vec<String> = Vec::new();
    let mut i: usize = 0;
    while i < tasks.len()
        invariant
            i <= tasks.len(),
            out@.len() == i,
            forall|k: int| 0 <= k < i ==> (#[trigger] out@[k])@ == tasks@[k].raw@,
        decreases tasks.len() - i,
    {
        out.push(tasks[i].raw.clone());
        i += 1;
    }
    proof {
        assert(path::texts(out@) =~= todo::raws(tasks@));
    }
    out
}

/// The tasks of canonical lines.
fn tasks_of(lines: &Vec<String>) -> (r: Vec<Task>)
    requires
        todo::all_canonical(path::texts(lines@)),
    ensures
        todo::tasks_wf(r@),
        todo::raws(r@) == path::texts(lines@),
{
    let mut out: Vec<Task> = Vec::new();
    let mut i: usize = 0;
    while i < lines.len()
        invariant
            i <= lines.len(),
            todo::all_canonical(path::texts(lines@)),
            todo::tasks_wf(out@),
            out@.len() == i,
            forall|k: int| 0 <= k < i ==> (#[trigger] out@[k]).raw@ == lines@[k]@,
        decreases lines.len() - i,
    {
        let raw: Vec<char> = chars_of(lines[i].as_str());
        proof {
            assert(path::texts(lines@)[i as int] == raw@);
        }
        out.push(Task::from_line(&raw));
        i += 1;
    }
    proof {
        assert(todo::raws(out@) =~= path::texts(lines@));
    }
    out
}

/// A copy of a list of tasks.
fn copy_tasks(tasks: &Vec<Task>) -> (r: Vec<Task>)
    ensures
        r@ == tasks@,
{
    let mut out: Vec<Task> = Vec::new();
    let mut i: usize = 0;
    while i < tasks.len()
        invariant
            i <= tasks.len(),
            out@ == tasks@.take(i as int),
        decreases tasks.len() - i,
    {
        out.push(tasks[i].clone());
        proof {
            assert(tasks@.take(i + 1) =~= tasks@.take(i as int).push(tasks@[i as int]));
        }
        i += 1;
    }
    proof {
        assert(tasks@.take(tasks@.len() as int) =~= tasks@);
    }
    out
}

fn is_among(locals: &Vec<usize>, i: usize) -> (r: bool)
    ensures
        r == locals@.contains(i),
{
    let mut k: usize = 0;
    while k < locals.len()
        invariant
            k <= locals.len(),
            forall|j: int| 0 <= j < k ==> locals@[j] != i,
        decreases locals.len() - k,
    {
        if locals[k] == i {
            return true;
        }
        k += 1;
    }
    false
}

/// The file beside `file` that has the given name.
fn sibling(file: &TreePath, name: &str) -> (r: TreePath)
    ensures
        r@ == sibling_of(file@, name@),
{
    match file.parent() {
        Some(dir) => dir.join(name),
        None => TreePath::new().join(name),
    }
}

/// The path beside `file` with the given name.
pub open spec fn sibling_of(file: Seq<Seq<char>>, name: Seq<char>) -> Seq<Seq<char>> {
    match path::parent_of(file) {
        Some(dir) => dir.push(name),
        None => seq![name],
    }
}

impl Store {
    pub closed spec fn task_list(&self) -> Seq<Task> {
        self.tasks@
    }

    /// Tasks say what their lines say, and every line is canonical.
    pub closed spec fn wf(&self) -> bool {
        &&& todo::tasks_wf(self.tasks@)
        &&& self.archive.wf()
        &&& self@.ok()
    }

    /// What a well-formed store says of its lines.
    pub proof fn wf_lines(&self)
        requires
            self.wf(),
        ensures
            self@.ok(),
            todo::tasks_wf(self.task_list()),
            todo::raws(self.task_list()) == self@.lines,
    {
    }

    /// A store holds no more tasks than a vector can.
    pub proof fn task_count_fits(&self)
        ensures
            self@.lines.len() <= usize::MAX,
    {
        assert(self.tasks@.len() == self.tasks.len());
    }

    /// A store over a task file, its archive a `done.md` beside it.
    pub fn new(file: TreePath, body: String, today: String) -> (r: Store)
        ensures
            r.wf(),
            r@ == StoreView::fresh(
                file@,
                sibling_of(file@, "done.md"@),
                sibling_of(file@, "inbox.md"@),
                body@,
                today@,
            ),
    {
        let done: TreePath = sibling(&file, "done.md");
        Store::new_with_done(file, done, body, today)
    }

    /// A store over a task file with an archive at a given path.
    pub fn new_with_done(file: TreePath, done_path: TreePath, body: String, today: String) -> (r:
        Store)
        ensures
            r.wf(),
            r@ == StoreView::fresh(
                file@,
                done_path@,
                sibling_of(file@, "inbox.md"@),
                body@,
                today@,
            ),
    {
        let inbox_path: TreePath = sibling(&file, "inbox.md");
        let tasks: Vec<Task> = parse_file(body.as_str());
        let archive: Archive = Archive {
            path: done_path.clone(),
            tasks: Vec::new(),
            text: String::new(),
        };
        let r = Store {
            file: FileSlot { path: file, text: Some(body.clone()), writable: true },
            done_file: FileSlot { path: done_path, text: Some(String::new()), writable: true },
            inbox: FileSlot { path: inbox_path, text: Some(String::new()), writable: true },
            tasks,
            synced: body,
            history: Vec::new(),
            archive,
            today,
        };
        proof {
            todo::read_lines_are_canonical(r.synced@);
            assert(todo::raws(r.archive.tasks@) =~= Seq::<Seq<char>>::empty());
            assert(snapshots(r.history@) =~= Seq::<Seq<Seq<char>>>::empty());
            let want = StoreView::fresh(
                r.file.path@,
                r.done_file.path@,
                sibling_of(r.file.path@, "inbox.md"@),
                r.synced@,
                r.today@,
            );
            assert(r@ =~= want);
            lemma_raws_canonical(r.tasks@);
        }
        r
    }

    pub fn tasks(&self) -> (r: &[Task])
        ensures
            r@ == self.task_list(),
    {
        self.tasks.as_slice()
    }

    pub fn file_path(&self) -> (r: &TreePath)
        ensures
            r@ == self@.file.path,
    {
        &self.file.path
    }

    pub fn archive(&self) -> (r: &Archive)
        requires
            self.wf(),
        ensures
            r.wf(),
            r@ == self@.archive,
    {
        &self.archive
    }

    /// Replace the archive.
    pub fn set_archive(&mut self, archive: Archive)
        requires
            old(self).wf(),
            archive.wf(),
        ensures
            final(self).wf(),
            final(self)@ == (StoreView { archive: archive@, ..old(self)@ }),
            final(self).task_list() == old(self).task_list(),
    {
        self.archive = archive;
        proof {
            lemma_raws_canonical(self.archive.tasks@);
        }
    }

    /// Take over the current day; tells whether it is another one.
    pub fn set_today(&mut self, today: String) -> (changed: bool)
        requires
            old(self).wf(),
        ensures
            final(self).wf(),
            changed == (old(self)@.today != today@),
            final(self)@ == (StoreView { today: today@, ..old(self)@ }),
            final(self).task_list() == old(self).task_list(),
    {
        let changed: bool = !same_text(self.today.as_str(), today.as_str());
        self.today = today;
        changed
    }

    /// Read the file image again when it is not what was last read or written.
    pub fn reconcile(&mut self) -> (r: Reconcile)
        requires
            old(self).wf(),
        ensures
            final(self).wf(),
            (final(self)@, r) == old(self)@.reconciled(),
            r == Reconcile::Unchanged ==> *final(self) == *old(self),
    {
        let now: String = match &self.file.text {
            Some(t) => t.clone(),
            None => {
                return Reconcile::ReadError;
            },
        };
        if same_text(now.as_str(), self.synced.as_str()) {
            return Reconcile::Unchanged;
        }
        self.tasks = parse_file(now.as_str());
        self.synced = now;
        self.history = Vec::new();
        proof {
            todo::read_lines_are_canonical(self.synced@);
            assert(snapshots(self.history@) =~= Seq::<Seq<Seq<char>>>::empty());
            assert(self@ =~= old(self)@.reconciled().0);
        }
        Reconcile::Reloaded
    }

    fn guard(&mut self) -> (r: Option<Stop>)
        requires
            old(self).wf(),
        ensures
            final(self).wf(),
            (final(self)@, r) == old(self)@.guarded(),
            r is None ==> *final(self) == *old(self),
    {
        let found: Reconcile = self.reconcile();
        if found != Reconcile::Unchanged {
            Some(Stop::Aborted(found))
        } else if !self.file.writable {
            Some(Stop::Error(StoreError::NotWritable))
        } else {
            None
        }
    }

    fn write(&mut self, tasks: Vec<Task>)
        requires
            old(self).wf(),
            todo::tasks_wf(tasks@),
        ensures
            final(self).wf(),
            final(self)@ == old(self)@.written(todo::raws(tasks@)),
    {
        let t: String = render_file(&tasks);
        self.tasks = tasks;
        self.synced = t.clone();
        self.file.text = Some(t);
        proof {
            lemma_raws_canonical(self.tasks@);
            assert(self@ =~= old(self)@.written(todo::raws(tasks@)));
        }
    }

    fn commit(&mut self, tasks: Vec<Task>)
        requires
            old(self).wf(),
            todo::tasks_wf(tasks@),
        ensures
            final(self).wf(),
            final(self)@ == old(self)@.committed(todo::raws(tasks@)),
    {
        let before: Vec<String> = snapshot(&self.tasks);
        let ghost h = self.history@;
        self.history.push(before);
        proof {
            assert(snapshots(self.history@) =~= snapshots(h).push(todo::raws(self.tasks@)));
            lemma_raws_canonical(self.tasks@);
            assert forall|i: int| 0 <= i < self@.history.len() implies todo::all_canonical(
                #[trigger] self@.history[i],
            ) by {
                if i < h.len() {
                    assert(self@.history[i] == old(self)@.history[i]);
                }
            }
        }
        self.write(tasks);
        proof {
            assert(self@ =~= old(self)@.committed(todo::raws(tasks@)));
        }
    }

    fn settle(&mut self, tasks: Vec<Task>)
        requires
            old(self).wf(),
            todo::tasks_wf(tasks@),
        ensures
            final(self).wf(),
            final(self)@ == old(self)@.settled(todo::raws(tasks@)),
    {
        self.history = Vec::new();
        proof {
            assert(snapshots(self.history@) =~= Seq::<Seq<Seq<char>>>::empty());
        }
        self.write(tasks);
        proof {
            assert(self@ =~= old(self)@.settled(todo::raws(tasks@)));
        }
    }

    /// Put a canonical line in place of the one at `i`.
    fn replace(&mut self, i: usize, raw: &Vec<char>)
        requires
            old(self).wf(),
            i < old(self)@.lines.len(),
            line::canonical(raw@),
        ensures
            final(self).wf(),
            final(self)@ == old(self)@.committed(old(self)@.lines.update(i as int, raw@)),
    {
        let mut tasks: Vec<Task> = copy_tasks(&self.tasks);
        tasks.set(i, Task::from_line(raw));
        proof {
            assert(todo::raws(tasks@) =~= self@.lines.update(i as int, raw@));
        }
        self.commit(tasks);
    }

    /// Complete the task at `i`, or open it again.
    pub fn toggle_complete(&mut self, i: usize) -> (r: CompleteOutcome)
        requires
            old(self).wf(),
        ensures
            final(self).wf(),
            (final(self)@, r) == old(self)@.toggle(i as int),
    {
        if i >= self.tasks.len() {
            return CompleteOutcome::OutOfRange;
        }
        match self.guard() {
            Some(Stop::Aborted(r)) => {
                return CompleteOutcome::Aborted(r);
            },
            Some(Stop::Error(e)) => {
                return CompleteOutcome::Error(e);
            },
            None => {},
        }
        let raw: Vec<char> = chars_of(self.tasks[i].raw.as_str());
        proof {
            assert(self.tasks@[i as int].wf());
        }
        if self.tasks[i].done {
            let open: Vec<char> = reopen_line(&raw);
            proof {
                line::reopened_is_canonical(raw@);
            }
            self.replace(i, &open);
            CompleteOutcome::Reopened
        } else {
            let mut tasks: Vec<Task> = copy_tasks(&self.tasks);
            let today: Vec<char> = chars_of(self.today.as_str());
            let spawned: bool = complete_task(&mut tasks, i, &today);
            self.commit(tasks);
            CompleteOutcome::Completed { spawned }
        }
    }

    /// Give the task at `i` the next priority.
    pub fn cycle_priority(&mut self, i: usize) -> (r: PriorityOutcome)
        requires
            old(self).wf(),
        ensures
            final(self).wf(),
            (final(self)@, r) == old(self)@.prioritize(i as int),
    {
        if i >= self.tasks.len() {
            return PriorityOutcome::OutOfRange;
        }
        match self.guard() {
            Some(Stop::Aborted(r)) => {
                return PriorityOutcome::Aborted(r);
            },
            Some(Stop::Error(e)) => {
                return PriorityOutcome::Error(e);
            },
            None => {},
        }
        let raw: Vec<char> = chars_of(self.tasks[i].raw.as_str());
        proof {
            assert(self.tasks@[i as int].wf());
            line::reprioritized_is_canonical(raw@);
        }
        let (new, priority) = cycle_line(&raw);
        self.replace(i, &new);
        PriorityOutcome::Changed { priority }
    }

    /// Delete the task at `i`.
    pub fn delete(&mut self, i: usize) -> (r: DeleteOutcome)
        requires
            old(self).wf(),
        ensures
            final(self).wf(),
            (final(self)@, r) == old(self)@.remove(i as int),
    {
        if i >= self.tasks.len() {
            return DeleteOutcome::OutOfRange;
        }
        match self.guard() {
            Some(Stop::Aborted(r)) => {
                return DeleteOutcome::Aborted(r);
            },
            Some(Stop::Error(e)) => {
                return DeleteOutcome::Error(e);
            },
            None => {},
        }
        let mut tasks: Vec<Task> = copy_tasks(&self.tasks);
        tasks.remove(i);
        proof {
            assert forall|k: int| 0 <= k < tasks@.len() implies (#[trigger] tasks@[k]).wf() by {
                if k < i {
                    assert(tasks@[k] == self.tasks@[k]);
                } else {
                    assert(tasks@[k] == self.tasks@[k + 1]);
                }
            }
            assert(todo::raws(tasks@) =~= self@.lines.remove(i as int));
        }
        self.commit(tasks);
        DeleteOutcome::Deleted
    }

    /// Put a new text in place of the line at `i`.
    pub fn edit_line(&mut self, i: usize, text: &str) -> (r: EditOutcome)
        requires
            old(self).wf(),
        ensures
            final(self).wf(),
            (final(self)@, r) == old(self)@.edit(i as int, text@),
    {
        if i >= self.tasks.len() {
            return EditOutcome::OutOfRange;
        }
        let chars: Vec<char> = chars_of(text);
        let cleaned: Vec<char> = clean_text(&chars);
        if cleaned.len() == 0 {
            return EditOutcome::Empty;
        }
        match self.guard() {
            Some(Stop::Aborted(r)) => {
                return EditOutcome::Aborted(r);
            },
            Some(Stop::Error(e)) => {
                return EditOutcome::Error(e);
            },
            None => {},
        }
        let raw: Vec<char> = make_line(&cleaned);
        proof {
            line::cleaned_text_makes_canonical_line(text@);
        }
        self.replace(i, &raw);
        EditOutcome::Edited
    }

    fn change_tag(&mut self, i: usize, sign: char, name: &str, toggle: bool) -> (r: TagOutcome)
        requires
            old(self).wf(),
            !line::is_blank(sign),
        ensures
            final(self).wf(),
            (final(self)@, r) == old(self)@.retag(i as int, sign, name@, toggle),
    {
        if i >= self.tasks.len() {
            return TagOutcome::OutOfRange;
        }
        let chars: Vec<char> = chars_of(name);
        let word: Vec<char> = make_word(sign, &chars);
        if word.len() == 1 {
            return TagOutcome::Empty;
        }
        match self.guard() {
            Some(Stop::Aborted(r)) => {
                return TagOutcome::Aborted(r);
            },
            Some(Stop::Error(e)) => {
                return TagOutcome::Error(e);
            },
            None => {},
        }
        let raw: Vec<char> = chars_of(self.tasks[i].raw.as_str());
        proof {
            assert(self.tasks@[i as int].wf());
        }
        let mut p: Parts = split_line(&raw);
        match find(&p.body, &word, true) {
            None => {
                let mut new: Vec<char> = raw;
                new.push(' ');
                line::extend(&mut new, &word);
                proof {
                    line::with_word_is_canonical(self.tasks@[i as int].raw@, sign, name@);
                }
                self.replace(i, &new);
                TagOutcome::Added
            },
            Some(at) => {
                let rest: Vec<char> = drop_word(&p.body, at, word.len());
                if !toggle || rest.len() == 0 {
                    return TagOutcome::Kept;
                }
                proof {
                    line::without_word_is_canonical(raw@, at as int, word@.len() as int);
                }
                p.body = rest;
                proof {
                    assert(p@ =~= line::PartsView { body: rest@, ..line::parts_of(raw@) });
                }
                let new: Vec<char> = join_line(&p);
                self.replace(i, &new);
                TagOutcome::Removed
            },
        }
    }

    /// Tag the task at `i` with a project.
    pub fn add_project(&mut self, i: usize, name: &str) -> (r: TagOutcome)
        requires
            old(self).wf(),
        ensures
            final(self).wf(),
            (final(self)@, r) == old(self)@.retag(i as int, '+', name@, false),
    {
        self.change_tag(i, '+', name, false)
    }

    /// Tag the task at `i` with a context, or take the tag away.
    pub fn toggle_context(&mut self, i: usize, name: &str) -> (r: TagOutcome)
        requires
            old(self).wf(),
        ensures
            final(self).wf(),
            (final(self)@, r) == old(self)@.retag(i as int, '@', name@, true),
    {
        self.change_tag(i, '@', name, true)
    }

    /// Add a task at the end.
    pub fn add_finalized(&mut self, text: &str) -> (r: AddOutcome)
        requires
            old(self).wf(),
        ensures
            final(self).wf(),
            (final(self)@, r) == old(self)@.add(text@),
    {
        let chars: Vec<char> = chars_of(text);
        let cleaned: Vec<char> = clean_text(&chars);
        if cleaned.len() == 0 {
            return AddOutcome::Empty;
        }
        match self.guard() {
            Some(Stop::Aborted(r)) => {
                return AddOutcome::Aborted(r);
            },
            Some(Stop::Error(e)) => {
                return AddOutcome::Error(e);
            },
            None => {},
        }
        let raw: Vec<char> = make_line(&cleaned);
        proof {
            line::cleaned_text_makes_canonical_line(text@);
        }
        let mut tasks: Vec<Task> = copy_tasks(&self.tasks);
        let task: Task = Task::from_line(&raw);
        proof {
            lemma_raws_push(tasks@, task);
        }
        tasks.push(task);
        self.commit(tasks);
        AddOutcome::Added
    }

    /// Take back the latest change that can be undone.
    pub fn undo(&mut self) -> (r: UndoOutcome)
        requires
            old(self).wf(),
        ensures
            final(self).wf(),
            (final(self)@, r) == old(self)@.undone(),
    {
        if self.history.is_empty() {
            return UndoOutcome::Nothing;
        }
        match self.guard() {
            Some(Stop::Aborted(r)) => {
                return UndoOutcome::Aborted(r);
            },
            Some(Stop::Error(e)) => {
                return UndoOutcome::Error(e);
            },
            None => {},
        }
        let ghost h = self.history@;
        match self.history.pop() {
            Some(lines) => {
                proof {
                    assert(snapshots(h).last() == path::texts(lines@));
                    assert(todo::all_canonical(snapshots(h)[h.len() - 1]));
                    assert(snapshots(self.history@) =~= snapshots(h).drop_last());
                    assert forall|i: int|
                        0 <= i < self@.history.len() implies todo::all_canonical(
                        #[trigger] self@.history[i],
                    ) by {
                        assert(self@.history[i] == snapshots(h)[i]);
                    }
                }
                let tasks: Vec<Task> = tasks_of(&lines);
                self.write(tasks);
                proof {
                    assert(self@ =~= old(self)@.undone().0);
                }
                UndoOutcome::Undone
            },
            None => UndoOutcome::Nothing,
        }
    }
}

/// Complete an open task among others; tells whether it recurs.
fn complete_task(tasks: &mut Vec<Task>, i: usize, today: &Vec<char>) -> (spawned: bool)
    requires
        todo::tasks_wf(old(tasks)@),
        i < old(tasks)@.len(),
    ensures
        todo::tasks_wf(final(tasks)@),
        todo::raws(final(tasks)@) == complete_at(todo::raws(old(tasks)@), i as int, today@),
        spawned == (line::next_occurrence(old(tasks)@[i as int].raw@, today@) is Some),
{
    let ghost before = tasks@;
    let raw: Vec<char> = chars_of(tasks[i].raw.as_str());
    proof {
        assert(before[i as int].wf());
        line::completed_is_canonical(raw@, today@);
        line::next_occurrence_is_canonical(raw@, today@);
    }
    let ticked: Vec<char> = complete_line(&raw, today);
    let next: Option<Vec<char>> = spawn_line(&raw, today);
    tasks.set(i, Task::from_line(&ticked));
    proof {
        assert(todo::raws(tasks@) =~= todo::raws(before).update(i as int, ticked@));
    }
    match next {
        Some(line) => {
            let task: Task = Task::from_line(&line);
            proof {
                lemma_raws_push(tasks@, task);
            }
            tasks.push(task);
            true
        },
        None => false,
    }
}

proof fn lemma_picked_bounds(
    lines: Seq<Seq<char>>,
    locals: Seq<usize>,
    today: Seq<char>,
    j: nat,
    k: nat,
)
    requires
        j <= k,
    ensures
        recurring(lines, locals, today, j) <= picked(lines, locals, j) <= j,
        picked(lines, locals, j) <= picked(lines, locals, k) <= picked(lines, locals, j) + (k - j),
    decreases k,
{
    if j < k {
        lemma_picked_bounds(lines, locals, today, j, (k - 1) as nat);
    } else if j > 0 {
        lemma_picked_bounds(lines, locals, today, (j - 1) as nat, (j - 1) as nat);
    }
}

proof fn lemma_complete_all_keeps(
    lines: Seq<Seq<char>>,
    locals: Seq<usize>,
    today: Seq<char>,
    k: nat,
)
    requires
        k <= lines.len(),
    ensures
        complete_all(lines, locals, today, k).len() >= lines.len(),
        forall|i: int|
            k <= i < lines.len() ==> #[trigger] complete_all(lines, locals, today, k)[i]
                == lines[i],
    decreases k,
{
    if k > 0 {
        lemma_complete_all_keeps(lines, locals, today, (k - 1) as nat);
    }
}

proof fn lemma_left_over_len(lines: Seq<Seq<char>>, locals: Seq<usize>, k: nat)
    ensures
        left_over(lines, locals, k).len() <= k,
    decreases k,
{
    if k > 0 {
        lemma_left_over_len(lines, locals, (k - 1) as nat);
    }
}

proof fn lemma_with_done_len(lines: Seq<Seq<char>>, done: bool)
    ensures
        with_done(lines, done).len() <= lines.len(),
    decreases lines.len(),
{
    if lines.len() > 0 {
        lemma_with_done_len(lines.drop_last(), done);
    }
}

/// A bulk change that goes through counts some task, and no more than the store
/// has.
pub proof fn bulk_counts_fit(s: StoreView, locals: Seq<usize>)
    requires
        s.lines.len() <= usize::MAX,
    ensures
        s.complete_some(locals).1 matches BulkCompleteOutcome::Done { completed, spawned }
            ==> spawned <= completed <= s.lines.len() && 0 < completed,
        s.remove_some(locals).1 matches BulkDeleteOutcome::Done { deleted } ==> 0 < deleted
            <= s.lines.len(),
{
    let n = s.lines.len();
    lemma_picked_bounds(s.lines, locals, s.today, n, n);
    lemma_left_over_len(s.lines, locals, n);
}

/// Archiving that goes through counts some task, and no more than the store has.
pub proof fn archive_count_fits(s: StoreView)
    requires
        s.lines.len() <= usize::MAX,
    ensures
        s.archive_done().1 matches ArchiveOutcome::Archived { count } ==> 0 < count
            <= s.lines.len(),
{
    lemma_with_done_len(s.lines, true);
}

/// Copies of the tasks that are completed, or of those that are not.
fn tasks_with_done(tasks: &Vec<Task>, done: bool) -> (r: Vec<Task>)
    requires
        todo::tasks_wf(tasks@),
    ensures
        todo::tasks_wf(r@),
        todo::raws(r@) == with_done(todo::raws(tasks@), done),
{
    let mut out: Vec<Task> = Vec::new();
    let mut i: usize = 0;
    let ghost lines = todo::raws(tasks@);
    proof {
        assert(lines.take(0) =~= Seq::<Seq<char>>::empty());
        assert(todo::raws(out@) =~= with_done(lines.take(0), done));
    }
    while i < tasks.len()
        invariant
            i <= tasks.len(),
            todo::tasks_wf(tasks@),
            lines == todo::raws(tasks@),
            todo::tasks_wf(out@),
            todo::raws(out@) == with_done(lines.take(i as int), done),
        decreases tasks.len() - i,
    {
        proof {
            assert(lines.take(i + 1).drop_last() =~= lines.take(i as int));
            assert(lines.take(i + 1).last() == tasks@[i as int].raw@);
            assert(tasks@[i as int].wf());
        }
        if tasks[i].done == done {
            let task: Task = tasks[i].clone();
            proof {
                lemma_raws_push(out@, task);
            }
            out.push(task);
        }
        i += 1;
    }
    proof {
        assert(lines.take(lines.len() as int) =~= lines);
    }
    out
}

impl Store {
    /// Complete the open tasks among those at `locals`.
    pub fn complete_many(&mut self, locals: &Vec<usize>) -> (r: BulkCompleteOutcome)
        requires
            old(self).wf(),
        ensures
            final(self).wf(),
            (final(self)@, r) == old(self)@.complete_some(locals@),
    {
        let found: Reconcile = self.reconcile();
        if found != Reconcile::Unchanged {
            return BulkCompleteOutcome::Aborted(found);
        }
        let n: usize = self.tasks.len();
        let today: Vec<char> = chars_of(self.today.as_str());
        let mut tasks: Vec<Task> = copy_tasks(&self.tasks);
        let mut completed: usize = 0;
        let mut spawned: usize = 0;
        let mut i: usize = 0;
        let ghost lines = self@.lines;
        while i < n
            invariant
                i <= n,
                self.wf(),
                n == self.tasks@.len(),
                lines == self@.lines,
                lines == todo::raws(self.tasks@),
                todo::tasks_wf(tasks@),
                todo::raws(tasks@) == complete_all(lines, locals@, today@, i as nat),
                completed == picked(lines, locals@, i as nat),
                spawned == recurring(lines, locals@, today@, i as nat),
                spawned <= completed <= i,
            decreases n - i,
        {
            proof {
                lemma_complete_all_keeps(lines, locals@, today@, i as nat);
                assert(self.tasks@[i as int].wf());
                assert(todo::raws(tasks@)[i as int] == lines[i as int]);
            }
            if is_among(locals, i) && !self.tasks[i].done {
                if complete_task(&mut tasks, i, &today) {
                    spawned += 1;
                }
                completed += 1;
            }
            i += 1;
        }
        if completed == 0 {
            return BulkCompleteOutcome::NothingToComplete;
        }
        if !self.file.writable {
            return BulkCompleteOutcome::Error(StoreError::NotWritable);
        }
        self.commit(tasks);
        BulkCompleteOutcome::Done { completed, spawned }
    }

    /// Delete the tasks at `locals`.
    pub fn delete_many(&mut self, locals: &Vec<usize>) -> (r: BulkDeleteOutcome)
        requires
            old(self).wf(),
        ensures
            final(self).wf(),
            (final(self)@, r) == old(self)@.remove_some(locals@),
    {
        let found: Reconcile = self.reconcile();
        if found != Reconcile::Unchanged {
            return BulkDeleteOutcome::Aborted(found);
        }
        let n: usize = self.tasks.len();
        let mut tasks: Vec<Task> = Vec::new();
        let mut i: usize = 0;
        let ghost lines = self@.lines;
        proof {
            assert(todo::raws(tasks@) =~= left_over(lines, locals@, 0));
        }
        while i < n
            invariant
                i <= n,
                self.wf(),
                n == self.tasks@.len(),
                lines == todo::raws(self.tasks@),
                todo::tasks_wf(tasks@),
                todo::raws(tasks@) == left_over(lines, locals@, i as nat),
            decreases n - i,
        {
            if !is_among(locals, i) {
                let task: Task = self.tasks[i].clone();
                proof {
                    assert(self.tasks@[i as int].wf());
                    lemma_raws_push(tasks@, task);
                }
                tasks.push(task);
            }
            i += 1;
        }
        proof {
            lemma_left_over_len(lines, locals@, n as nat);
            assert(todo::raws(tasks@).len() == tasks@.len());
        }
        if tasks.len() == n {
            return BulkDeleteOutcome::Nothing;
        }
        if !self.file.writable {
            return BulkDeleteOutcome::Error(StoreError::NotWritable);
        }
        let deleted: usize = n - tasks.len();
        self.commit(tasks);
        BulkDeleteOutcome::Done { deleted }
    }

    /// Put new contents in the archive and its file.
    fn write_archive(&mut self, t: String, tasks: Vec<Task>)
        requires
            old(self).wf(),
            todo::tasks_wf(tasks@),
        ensures
            final(self).wf(),
            final(self)@ == old(self)@.rearchived(t@, todo::raws(tasks@)),
            final(self).tasks == old(self).tasks,
    {
        self.done_file.text = Some(t.clone());
        self.archive.tasks = tasks;
        self.archive.text = t;
        proof {
            lemma_raws_canonical(self.archive.tasks@);
            assert(self@ =~= old(self)@.rearchived(t@, todo::raws(tasks@)));
        }
    }

    /// Move completed tasks to the archive.
    pub fn archive_completed(&mut self) -> (r: ArchiveOutcome)
        requires
            old(self).wf(),
        ensures
            final(self).wf(),
            (final(self)@, r) == old(self)@.archive_done(),
    {
        let found: Reconcile = self.reconcile();
        if found != Reconcile::Unchanged {
            return ArchiveOutcome::Aborted(found);
        }
        let done: Vec<Task> = tasks_with_done(&self.tasks, true);
        proof {
            assert(todo::raws(done@).len() == done@.len());
        }
        if done.len() == 0 {
            return ArchiveOutcome::Nothing;
        }
        if !self.file.writable || !self.done_file.writable {
            return ArchiveOutcome::Error(StoreError::NotWritable);
        }
        let mut all: String = match &self.done_file.text {
            Some(t) => t.clone(),
            None => {
                return ArchiveOutcome::Error(StoreError::NotReadable);
            },
        };
        let chars: Vec<char> = chars_of(all.as_str());
        if chars.len() > 0 && chars[chars.len() - 1] != '\n' {
            all.push('\n');
        }
        let new: String = render_file(&done);
        all.append(new.as_str());
        let archived: Vec<Task> = parse_file(all.as_str());
        let rest: Vec<Task> = tasks_with_done(&self.tasks, false);
        self.write_archive(all, archived);
        self.settle(rest);
        ArchiveOutcome::Archived { count: done.len() }
    }

    /// Read the archive's file image again when it has changed.
    pub fn poll_archive(&mut self) -> (changed: bool)
        requires
            old(self).wf(),
        ensures
            final(self).wf(),
            (final(self)@, changed) == old(self)@.polled(),
            !changed ==> *final(self) == *old(self),
            final(self).task_list() == old(self).task_list(),
    {
        let now: String = match &self.done_file.text {
            Some(t) => t.clone(),
            None => {
                return false;
            },
        };
        if same_text(now.as_str(), self.archive.text.as_str()) {
            return false;
        }
        let tasks: Vec<Task> = parse_file(now.as_str());
        self.write_archive(now, tasks);
        true
    }

    fn guard_archive(&mut self) -> (r: Option<Stop>)
        requires
            old(self).wf(),
        ensures
            final(self).wf(),
            (final(self)@, r) == old(self)@.archive_guarded(),
            r is None ==> *final(self) == *old(self),
            final(self).task_list() == old(self).task_list(),
    {
        if self.done_file.text.is_none() {
            return Some(Stop::Error(StoreError::NotReadable));
        }
        if self.poll_archive() {
            return Some(Stop::Aborted(Reconcile::Reloaded));
        }
        if !self.done_file.writable {
            return Some(Stop::Error(StoreError::NotWritable));
        }
        None
    }

    fn drop_archived(&mut self, i: usize)
        requires
            old(self).wf(),
            i < old(self)@.archive.lines.len(),
        ensures
            final(self).wf(),
            final(self)@ == old(self)@.archive_without(i as int),
            final(self).task_list() == old(self).task_list(),
    {
        let mut tasks: Vec<Task> = copy_tasks(&self.archive.tasks);
        tasks.remove(i);
        proof {
            assert forall|k: int| 0 <= k < tasks@.len() implies (#[trigger] tasks@[k]).wf() by {
                if k < i {
                    assert(tasks@[k] == self.archive.tasks@[k]);
                } else {
                    assert(tasks@[k] == self.archive.tasks@[k + 1]);
                }
            }
            assert(todo::raws(tasks@) =~= self@.archive.lines.remove(i as int));
        }
        let t: String = render_file(&tasks);
        self.write_archive(t, tasks);
    }

    /// Move the archived task at `i` back to the task file.
    pub fn unarchive(&mut self, i: usize) -> (r: UnarchiveOutcome)
        requires
            old(self).wf(),
        ensures
            final(self).wf(),
            (final(self)@, r) == old(self)@.restore(i as int),
    {
        if i >= self.archive.tasks.len() {
            return UnarchiveOutcome::OutOfRange;
        }
        match self.guard() {
            Some(Stop::Aborted(r)) => {
                return UnarchiveOutcome::Aborted(r);
            },
            Some(Stop::Error(e)) => {
                return UnarchiveOutcome::Error(e);
            },
            None => {},
        }
        match self.guard_archive() {
            Some(Stop::Aborted(r)) => {
                return UnarchiveOutcome::Aborted(r);
            },
            Some(Stop::Error(e)) => {
                return UnarchiveOutcome::Error(e);
            },
            None => {},
        }
        let task: Task = self.archive.tasks[i].clone();
        let mut tasks: Vec<Task> = copy_tasks(&self.tasks);
        proof {
            assert(self.archive.tasks@[i as int].wf());
            lemma_raws_push(tasks@, task);
        }
        tasks.push(task);
        self.drop_archived(i);
        self.settle(tasks);
        UnarchiveOutcome::Restored
    }

    /// Delete the archived task at `i` for good.
    pub fn archive_delete(&mut self, i: usize) -> (r: ArchiveDeleteOutcome)
        requires
            old(self).wf(),
        ensures
            final(self).wf(),
            (final(self)@, r) == old(self)@.archive_remove(i as int),
            final(self).task_list() == old(self).task_list(),
    {
        if i >= self.archive.tasks.len() {
            return ArchiveDeleteOutcome::OutOfRange;
        }
        match self.guard_archive() {
            Some(Stop::Aborted(r)) => {
                return ArchiveDeleteOutcome::Aborted(r);
            },
            Some(Stop::Error(e)) => {
                return ArchiveDeleteOutcome::Error(e);
            },
            None => {},
        }
        self.drop_archived(i);
        ArchiveDeleteOutcome::Deleted
    }

    /// Move the tasks of the inbox to the end of the task file.
    pub fn drain_inbox(&mut self) -> (r: DrainReport)
        requires
            old(self).wf(),
        ensures
            final(self).wf(),
            (final(self)@, r) == old(self)@.drain(),
    {
        let mut new: Vec<Task> = match &self.inbox.text {
            Some(t) => parse_file(t.as_str()),
            None => {
                return DrainReport::Error(StoreError::NotReadable);
            },
        };
        let count: usize = new.len();
        let ghost added = todo::raws(new@);
        proof {
            assert(added.len() == count);
        }
        if count == 0 {
            return DrainReport::Nothing;
        }
        match self.guard() {
            Some(Stop::Aborted(r)) => {
                return DrainReport::Aborted(r);
            },
            Some(Stop::Error(e)) => {
                return DrainReport::Error(e);
            },
            None => {},
        }
        if !self.inbox.writable {
            return DrainReport::Error(StoreError::NotWritable);
        }
        let mut tasks: Vec<Task> = copy_tasks(&self.tasks);
        let ghost old_tasks = tasks@;
        tasks.append(&mut new);
        proof {
            assert(todo::raws(tasks@) =~= self@.lines + added);
        }
        self.settle(tasks);
        self.inbox.text = Some(String::new());
        proof {
            assert(self@ =~= old(self)@.drain().0);
        }
        DrainReport::Drained { count }
    }

    /// The image of the task file.
    pub fn file_slot(&self) -> (r: &FileSlot)
        ensures
            r@ == self@.file,
    {
        &self.file
    }

    /// The image of the archive's file.
    pub fn done_slot(&self) -> (r: &FileSlot)
        ensures
            r@ == self@.done_file,
    {
        &self.done_file
    }

    /// The image of the inbox.
    pub fn inbox_slot(&self) -> (r: &FileSlot)
        ensures
            r@ == self@.inbox,
    {
        &self.inbox
    }

    /// Load what reading a file gave into its image.
    pub fn load(&mut self, which: FileKind, text: Option<String>, writable: bool)
        requires
            old(self).wf(),
        ensures
            final(self).wf(),
            final(self)@ == old(self)@.loaded(which, todo::opt_text(text), writable),
            final(self).task_list() == old(self).task_list(),
    {
        match which {
            FileKind::Todo => {
                self.file.text = text;
                self.file.writable = writable;
            },
            FileKind::Done => {
                self.done_file.text = text;
                self.done_file.writable = writable;
            },
            FileKind::Inbox => {
                self.inbox.text = text;
                self.inbox.writable = writable;
            },
        }
        proof {
            assert(self@ =~= old(self)@.loaded(which, todo::opt_text(text), writable));
        }
    }
}

/// The files of a store.
#[derive(Clone, Copy, Debug, PartialEq, Eq, Structural)]
pub enum FileKind {
    Todo,
    Done,
    Inbox,
}

impl StoreView {
    /// The store with a newly loaded file image.
    pub open spec fn loaded(
        self,
        which: FileKind,
        text: Option<Seq<char>>,
        writable: bool,
    ) -> StoreView {
        match which {
            FileKind::Todo => StoreView {
                file: SlotView { text, writable, ..self.file },
                ..self
            },
            FileKind::Done => StoreView {
                done_file: SlotView { text, writable, ..self.done_file },
                ..self
            },
            FileKind::Inbox => StoreView {
                inbox: SlotView { text, writable, ..self.inbox },
                ..self
            },
        }
    }
}

} // verus!
