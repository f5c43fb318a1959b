use tuxemdo::discover::{visit_entry, Discovery, Entry, Visit};
use tuxemdo::outcome::{
    AddOutcome, ArchiveDeleteOutcome, ArchiveOutcome, BulkCompleteOutcome, BulkDeleteOutcome,
    CompleteOutcome, DeleteOutcome, DrainReport, EditOutcome, PriorityOutcome, Reconcile,
    StoreError, TagOutcome, UnarchiveOutcome, UndoOutcome,
};
use tuxemdo::path::TreePath;
use tuxemdo::store::FileKind;
use tuxemdo::tree::{LoadedFile, TreeStore};

fn path(s: &str) -> TreePath {
    TreePath {
        parts: if s.is_empty() {
            Vec::new()
        } else {
            s.split('/').map(|p| p.to_string()).collect()
        },
    }
}

fn joined(p: &TreePath) -> String {
    p.parts.join("/")
}

fn file(at: &str, body: &str) -> LoadedFile {
    LoadedFile {
        path: path(at),
        body: body.into(),
    }
}

/// Every file of a directory, of which discovery takes some.
const FILES: [(&str, &str); 3] = [
    ("todo.md", "- [ ] (A) root task +root\n"),
    (
        "projects/alpha/todo.md",
        "- [ ] ship alpha @work +alpha\n- [ ] write spec +alpha\n",
    ),
    ("node_modules/dep/todo.md", "- [ ] skip me\n"),
];

/// The entries of a directory that holds these files.
fn entries(dir: &str) -> Vec<Entry> {
    let mut out: Vec<Entry> = Vec::new();
    for (at, _) in FILES {
        let whole = format!("r/{at}");
        let Some(rest) = whole.strip_prefix(&format!("{dir}/")) else {
            continue;
        };
        let (name, is_dir) = match rest.split_once('/') {
            Some((name, _)) => (name, true),
            None => (rest, false),
        };
        if out.iter().all(|e| e.name != name) {
            out.push(Entry {
                name: name.into(),
                is_dir,
                is_file: !is_dir,
            });
        }
    }
    out
}

fn discovered() -> Vec<String> {
    let mut search = Discovery::below(path("r"));
    while let Some(dir) = search.next_dir() {
        let listing = Some(entries(&joined(&dir)));
        search.take_listing(&dir, &listing);
    }
    search.found().iter().map(joined).collect()
}

fn fixture(today: &str) -> TreeStore {
    let reached = discovered();
    let found = FILES
        .iter()
        .map(|(at, body)| (format!("r/{at}"), body))
        .filter(|(at, _)| reached.contains(at))
        .map(|(at, body)| file(&at, body))
        .collect();
    TreeStore::open(path("r"), found, String::new(), today.into())
}

fn position(ts: &TreeStore, part: &str) -> usize {
    ts.tasks().iter().position(|t| t.raw.contains(part)).unwrap()
}

fn on_disk(ts: &TreeStore, at: &str) -> String {
    for si in 0..ts.store_count() {
        for kind in [FileKind::Todo, FileKind::Done, FileKind::Inbox] {
            let slot = ts.slot(si, kind);
            if joined(&slot.path) == at {
                return slot.text.clone().unwrap();
            }
        }
    }
    panic!("no file at {at}");
}

fn single(body: &str) -> TreeStore {
    TreeStore::open_file(path("d/todo.md"), body.into(), "2026-06-23".into())
}

fn raws(ts: &TreeStore) -> Vec<String> {
    ts.tasks().iter().map(|t| t.raw.clone()).collect()
}

#[test]
fn aggregates_across_files_skipping_noise() {
    let ts = fixture("2026-06-23");
    assert_eq!(ts.tasks().len(), 3);
    assert!(ts.tasks().iter().all(|t| !t.raw.contains("skip me")));
}

#[test]
fn complete_routes_to_owning_file_and_persists() {
    let mut ts = fixture("2026-06-23");
    // Find the "ship alpha" task and complete it.
    let abs = ts
        .tasks()
        .iter()
        .position(|t| t.raw.contains("ship alpha"))
        .unwrap();
    let source = joined(ts.source(abs).unwrap());
    assert!(matches!(
        ts.toggle_complete(abs),
        CompleteOutcome::Completed { .. }
    ));
    // The change landed in the alpha file, not the root file.
    let body = on_disk(&ts, &source);
    assert!(body.contains("- [x]") && body.contains("ship alpha"));
    let root_body = on_disk(&ts, "r/todo.md");
    assert!(!root_body.contains("- [x]"));
}

#[test]
fn add_goes_to_root_and_undo_reverts_it() {
    let mut ts = fixture("2026-06-23");
    let before = ts.tasks().len();
    ts.add_finalized("brand new task +misc");
    assert_eq!(ts.tasks().len(), before + 1);
    let root_body = on_disk(&ts, "r/todo.md");
    assert!(root_body.contains("brand new task"));
    // Undo removes it again.
    ts.undo();
    assert_eq!(ts.tasks().len(), before);
}

#[test]
fn area_is_relative_to_root() {
    let ts = fixture("2026-06-23");
    let abs = ts
        .tasks()
        .iter()
        .position(|t| t.raw.contains("ship alpha"))
        .unwrap();
    assert!(ts.area(abs).same(&path("projects/alpha")));
    let root_abs = ts
        .tasks()
        .iter()
        .position(|t| t.raw.contains("root task"))
        .unwrap();
    assert!(ts.area(root_abs).same(&TreePath::new()));
}

#[test]
fn discovery_skips_hidden_and_foreign_directories() {
    for name in [".git", "node_modules", "target", "vendor"] {
        assert_eq!(visit_entry(name, true, false), Visit::Ignore);
    }
    assert_eq!(visit_entry("src", true, false), Visit::Descend);
    assert_eq!(visit_entry("todo.md", false, true), Visit::Take);
    assert_eq!(visit_entry("todo.md", false, false), Visit::Ignore);
    assert_eq!(visit_entry("done.md", false, true), Visit::Ignore);
    assert_eq!(visit_entry("todo.md", true, false), Visit::Descend);
}

#[test]
fn a_tree_without_a_root_file_gets_one_in_front() {
    let ts = TreeStore::open(
        path("r"),
        vec![file("r/b/todo.md", "b\n"), file("r/a/todo.md", "a\n")],
        String::new(),
        "2026-06-23".into(),
    );
    assert_eq!(ts.store_count(), 3);
    assert_eq!(joined(&ts.slot(0, FileKind::Todo).path), "r/todo.md");
    assert_eq!(raws(&ts), vec!["- [ ] a", "- [ ] b"]);
    assert!(!ts.is_single_file());
    assert_eq!(joined(ts.root()), "r");
    assert_eq!(ts.today(), "2026-06-23");
}

#[test]
fn an_empty_tree_is_a_single_file() {
    let ts = TreeStore::open(path("r"), Vec::new(), String::new(), "2026-06-23".into());
    assert!(ts.is_single_file());
    assert!(ts.tasks().is_empty());
    assert!(!ts.has_completed());
}

#[test]
fn one_file_with_an_archive_elsewhere() {
    let mut ts = TreeStore::open_file_with_done(
        path("d/list.md"),
        path("e/old.md"),
        "- [x] 2026-06-01 a\n- [ ] b\n".into(),
        "2026-06-23".into(),
    );
    assert!(ts.has_completed());
    assert_eq!(joined(ts.root()), "d");
    assert_eq!(
        ts.archive_completed(),
        ArchiveOutcome::Archived { count: 1 }
    );
    assert_eq!(on_disk(&ts, "e/old.md"), "- [x] 2026-06-01 a\n");
    assert_eq!(on_disk(&ts, "d/list.md"), "- [ ] b\n");
    assert!(!ts.has_completed());
}

#[test]
fn indices_out_of_range_change_nothing() {
    let mut ts = fixture("2026-06-23");
    assert_eq!(ts.toggle_complete(3), CompleteOutcome::OutOfRange);
    assert_eq!(ts.cycle_priority(3), PriorityOutcome::OutOfRange);
    assert_eq!(ts.delete(3), DeleteOutcome::OutOfRange);
    assert_eq!(ts.edit_line(3, "x"), EditOutcome::OutOfRange);
    assert_eq!(ts.add_project(3, "x"), TagOutcome::OutOfRange);
    assert_eq!(ts.toggle_context(3, "x"), TagOutcome::OutOfRange);
    assert_eq!(ts.unarchive(0), UnarchiveOutcome::OutOfRange);
    assert_eq!(ts.archive_delete(0), ArchiveDeleteOutcome::OutOfRange);
    assert_eq!(ts.undo(), UndoOutcome::Nothing);
    assert_eq!(ts.task_raw(3), None);
    assert!(ts.source(3).is_none());
    assert!(ts.area(3).is_empty());
}

#[test]
fn completing_stamps_the_day_and_reopening_takes_it_off() {
    let mut ts = single("- [ ] (A) 2026-06-01 pay\n");
    assert_eq!(
        ts.toggle_complete(0),
        CompleteOutcome::Completed { spawned: false }
    );
    assert_eq!(raws(&ts), vec!["- [x] (A) 2026-06-23 2026-06-01 pay"]);
    assert_eq!(ts.toggle_complete(0), CompleteOutcome::Reopened);
    assert_eq!(raws(&ts), vec!["- [ ] (A) 2026-06-01 pay"]);
}

#[test]
fn a_recurring_task_leaves_its_next_occurrence() {
    let mut ts = single("- [ ] water due:2026-06-20 rec:1w\n");
    assert_eq!(
        ts.toggle_complete(0),
        CompleteOutcome::Completed { spawned: true }
    );
    assert_eq!(ts.tasks().len(), 2);
    assert!(ts.tasks()[0].done);
    assert!(!ts.tasks()[1].done);
    assert!(ts.tasks()[1].raw.contains("rec:1w"));
}

#[test]
fn priorities_cycle() {
    let mut ts = single("- [ ] a\n");
    let mut seen = Vec::new();
    for _ in 0..4 {
        match ts.cycle_priority(0) {
            PriorityOutcome::Changed { priority } => seen.push(priority),
            other => panic!("{other:?}"),
        }
    }
    assert_eq!(seen, vec![Some('A'), Some('B'), Some('C'), None]);
    assert_eq!(raws(&ts), vec!["- [ ] a"]);
}

#[test]
fn editing_and_tagging() {
    let mut ts = single("- [ ] a\n");
    assert_eq!(ts.edit_line(0, "  new text "), EditOutcome::Edited);
    assert_eq!(ts.edit_line(0, "   "), EditOutcome::Empty);
    assert_eq!(ts.add_project(0, "home"), TagOutcome::Added);
    assert_eq!(ts.add_project(0, "home"), TagOutcome::Kept);
    assert_eq!(ts.toggle_context(0, "desk"), TagOutcome::Added);
    assert_eq!(raws(&ts), vec!["- [ ] new text +home @desk"]);
    assert_eq!(ts.toggle_context(0, "desk"), TagOutcome::Removed);
    assert_eq!(ts.toggle_context(0, " "), TagOutcome::Empty);
    assert_eq!(raws(&ts), vec!["- [ ] new text +home"]);
    assert_eq!(ts.task_raw(0).as_deref(), Some("- [ ] new text +home"));
}

#[test]
fn undo_goes_back_through_the_stores_in_reverse() {
    let mut ts = fixture("2026-06-23");
    let before = raws(&ts);
    let alpha = position(&ts, "ship alpha");
    assert_eq!(ts.delete(alpha), DeleteOutcome::Deleted);
    let root = position(&ts, "root task");
    assert!(matches!(
        ts.toggle_complete(root),
        CompleteOutcome::Completed { .. }
    ));
    assert_eq!(ts.undo(), UndoOutcome::Undone);
    assert_eq!(raws(&ts).len(), 2);
    assert!(!ts.has_completed());
    assert_eq!(ts.undo(), UndoOutcome::Undone);
    assert_eq!(raws(&ts), before);
    assert_eq!(ts.undo(), UndoOutcome::Nothing);
}

#[test]
fn an_added_blank_text_changes_nothing() {
    let mut ts = single("a\n");
    assert_eq!(ts.add_finalized(" \t"), AddOutcome::Empty);
    assert_eq!(raws(&ts), vec!["- [ ] a"]);
}

#[test]
fn bulk_completion_reaches_every_file() {
    let mut ts = fixture("2026-06-23");
    assert_eq!(
        ts.complete_many(&[0, 1, 2]),
        BulkCompleteOutcome::Done {
            completed: 3,
            spawned: 0
        }
    );
    assert!(ts.tasks().iter().all(|t| t.done));
    assert_eq!(
        ts.complete_many(&[0, 1, 2]),
        BulkCompleteOutcome::NothingToComplete
    );
    assert_eq!(ts.undo(), UndoOutcome::Undone);
    assert_eq!(ts.undo(), UndoOutcome::Undone);
    assert!(!ts.has_completed());
}

#[test]
fn bulk_deletion_counts_what_it_took() {
    let mut ts = fixture("2026-06-23");
    assert_eq!(ts.delete_many(&[9]), BulkDeleteOutcome::Nothing);
    assert_eq!(
        ts.delete_many(&[0, 2, 9]),
        BulkDeleteOutcome::Done { deleted: 2 }
    );
    assert_eq!(ts.tasks().len(), 1);
}

#[test]
fn archiving_goes_to_the_file_beside_each_list() {
    let mut ts = fixture("2026-06-23");
    assert_eq!(ts.archive_completed(), ArchiveOutcome::Nothing);
    ts.complete_many(&[0, 2]);
    assert_eq!(
        ts.archive_completed(),
        ArchiveOutcome::Archived { count: 2 }
    );
    assert!(!ts.has_completed());
    assert!(on_disk(&ts, "r/projects/alpha/done.md").contains("ship alpha"));
    assert!(on_disk(&ts, "r/done.md").contains("root task"));
}

#[test]
fn archived_tasks_come_back_or_go() {
    let mut ts = single("- [x] 2026-06-01 a\n- [x] 2026-06-02 b\n- [ ] c\n");
    ts.archive_completed();
    assert_eq!(ts.archive().tasks().len(), 2);
    assert_eq!(ts.unarchive(0), UnarchiveOutcome::Restored);
    assert_eq!(raws(&ts), vec!["- [ ] c", "- [x] 2026-06-01 a"]);
    assert_eq!(ts.archive_delete(0), ArchiveDeleteOutcome::Deleted);
    assert!(ts.archive().tasks().is_empty());
    assert_eq!(on_disk(&ts, "d/done.md"), "");
}

#[test]
fn a_changed_archive_is_read_again() {
    let mut ts = single("a\n");
    assert!(!ts.poll_archive());
    ts.load_slot(0, FileKind::Done, Some("- [x] 2026-06-01 z\n".into()), true);
    assert!(ts.poll_archive());
    assert!(!ts.poll_archive());
    assert_eq!(ts.archive().tasks()[0].body, "z");
    ts.load_slot(0, FileKind::Done, Some(String::new()), true);
    assert_eq!(
        ts.archive_delete(0),
        ArchiveDeleteOutcome::Aborted(Reconcile::Reloaded)
    );
}

#[test]
fn the_inbox_is_emptied_into_the_list() {
    let mut ts = single("a\n");
    assert_eq!(ts.drain_inbox(), DrainReport::Nothing);
    ts.load_slot(0, FileKind::Inbox, Some("x\n\n- [ ] y\n".into()), true);
    assert_eq!(ts.drain_inbox(), DrainReport::Drained { count: 2 });
    assert_eq!(raws(&ts), vec!["- [ ] a", "- [ ] x", "- [ ] y"]);
    assert_eq!(on_disk(&ts, "d/inbox.md"), "");
}

#[test]
fn a_file_changed_elsewhere_aborts_and_is_taken_over() {
    let mut ts = single("a\n");
    ts.load_slot(0, FileKind::Todo, Some("b\nc\n".into()), true);
    assert_eq!(
        ts.toggle_complete(0),
        CompleteOutcome::Aborted(Reconcile::Reloaded)
    );
    assert_eq!(raws(&ts), vec!["- [ ] b", "- [ ] c"]);
    assert_eq!(ts.undo(), UndoOutcome::Nothing);
    assert_eq!(
        ts.toggle_complete(0),
        CompleteOutcome::Completed { spawned: false }
    );
}

#[test]
fn reconcile_reports_the_worst_it_found() {
    let mut ts = fixture("2026-06-23");
    assert_eq!(ts.reconcile(), Reconcile::Unchanged);
    ts.load_slot(0, FileKind::Todo, Some("other\n".into()), true);
    assert_eq!(ts.reconcile(), Reconcile::Reloaded);
    assert_eq!(ts.reconcile(), Reconcile::Unchanged);
    ts.load_slot(0, FileKind::Todo, None, true);
    assert_eq!(ts.reconcile(), Reconcile::ReadError);
}

#[test]
fn an_unreadable_file_aborts_every_change() {
    let mut ts = single("- [x] 2026-06-01 a\n");
    ts.load_slot(0, FileKind::Todo, None, true);
    let gone = Reconcile::ReadError;
    assert_eq!(ts.toggle_complete(0), CompleteOutcome::Aborted(gone));
    assert_eq!(ts.cycle_priority(0), PriorityOutcome::Aborted(gone));
    assert_eq!(ts.delete(0), DeleteOutcome::Aborted(gone));
    assert_eq!(ts.edit_line(0, "x"), EditOutcome::Aborted(gone));
    assert_eq!(ts.add_project(0, "x"), TagOutcome::Aborted(gone));
    assert_eq!(ts.add_finalized("x"), AddOutcome::Aborted(gone));
    assert_eq!(ts.archive_completed(), ArchiveOutcome::Aborted(gone));
    assert_eq!(ts.complete_many(&[0]), BulkCompleteOutcome::Aborted(gone));
    assert_eq!(ts.delete_many(&[0]), BulkDeleteOutcome::Aborted(gone));
    assert_eq!(raws(&ts), vec!["- [x] 2026-06-01 a"]);
}

#[test]
fn a_file_that_cannot_be_written_is_an_error() {
    let mut ts = single("- [x] 2026-06-01 a\n- [ ] b\n");
    ts.add_finalized("c");
    ts.load_slot(0, FileKind::Todo, Some(on_disk(&ts, "d/todo.md")), false);
    let locked = StoreError::NotWritable;
    assert_eq!(ts.toggle_complete(0), CompleteOutcome::Error(locked));
    assert_eq!(ts.cycle_priority(0), PriorityOutcome::Error(locked));
    assert_eq!(ts.delete(0), DeleteOutcome::Error(locked));
    assert_eq!(ts.edit_line(0, "x"), EditOutcome::Error(locked));
    assert_eq!(ts.toggle_context(0, "x"), TagOutcome::Error(locked));
    assert_eq!(ts.add_finalized("x"), AddOutcome::Error(locked));
    assert_eq!(ts.archive_completed(), ArchiveOutcome::Error(locked));
    assert_eq!(ts.complete_many(&[1]), BulkCompleteOutcome::Error(locked));
    assert_eq!(ts.delete_many(&[0]), BulkDeleteOutcome::Error(locked));
    ts.load_slot(0, FileKind::Inbox, Some("x\n".into()), true);
    assert_eq!(ts.drain_inbox(), DrainReport::Error(locked));
    assert_eq!(ts.tasks().len(), 3);
}

#[test]
fn an_archive_that_cannot_be_read_or_written_is_an_error() {
    let mut ts = single("- [x] 2026-06-01 a\n");
    ts.load_slot(0, FileKind::Done, None, true);
    assert_eq!(
        ts.archive_completed(),
        ArchiveOutcome::Error(StoreError::NotReadable)
    );
    ts.load_slot(0, FileKind::Done, Some("- [x] z\n".into()), true);
    ts.poll_archive();
    ts.load_slot(0, FileKind::Done, Some("- [x] z\n".into()), false);
    assert_eq!(
        ts.unarchive(0),
        UnarchiveOutcome::Error(StoreError::NotWritable)
    );
    assert_eq!(
        ts.archive_delete(0),
        ArchiveDeleteOutcome::Error(StoreError::NotWritable)
    );
    ts.load_slot(0, FileKind::Inbox, None, true);
    assert_eq!(
        ts.drain_inbox(),
        DrainReport::Error(StoreError::NotReadable)
    );
}

#[test]
fn undo_meets_a_changed_or_locked_file() {
    let mut ts = single("a\n");
    ts.add_finalized("b");
    let body = on_disk(&ts, "d/todo.md");
    ts.load_slot(0, FileKind::Todo, Some(body), false);
    assert_eq!(ts.undo(), UndoOutcome::Error(StoreError::NotWritable));
    let mut ts = single("a\n");
    ts.add_finalized("b");
    ts.load_slot(0, FileKind::Todo, Some("z\n".into()), true);
    assert_eq!(ts.undo(), UndoOutcome::Aborted(Reconcile::Reloaded));
    assert_eq!(raws(&ts), vec!["- [ ] z"]);
}

#[test]
fn set_today_tells_whether_the_day_changed() {
    let mut ts = fixture("2026-06-23");
    assert!(!ts.set_today("2026-06-23".into()));
    assert!(ts.set_today("2026-06-24".into()));
    assert_eq!(ts.today(), "2026-06-24");
    let abs = position(&ts, "write spec");
    ts.toggle_complete(abs);
    assert!(ts.task_raw(abs).unwrap().contains("2026-06-24"));
}

#[test]
fn a_search_finds_every_task_file_and_no_other() {
    let found = discovered();
    assert_eq!(found, vec!["r/todo.md", "r/projects/alpha/todo.md"]);
    assert!(found.iter().all(|f| found.iter().filter(|g| *g == f).count() == 1));
}

#[test]
fn a_directory_that_may_not_be_read_is_passed_over() {
    let mut search = Discovery::below(path("r"));
    let dir = search.next_dir().unwrap();
    let listing = Some(vec![
        Entry {
            name: "locked".into(),
            is_dir: true,
            is_file: false,
        },
        Entry {
            name: "todo.md".into(),
            is_dir: false,
            is_file: true,
        },
    ]);
    search.take_listing(&dir, &listing);
    let locked = search.next_dir().unwrap();
    assert_eq!(joined(&locked), "r/locked");
    search.take_listing(&locked, &None);
    assert!(search.next_dir().is_none());
    let found: Vec<String> = search.found().iter().map(joined).collect();
    assert_eq!(found, vec!["r/todo.md"]);
}

#[test]
fn undo_passes_over_calls_that_changed_nothing() {
    let mut ts = fixture("2026-06-23");
    let before = raws(&ts);
    let abs = position(&ts, "ship alpha");
    assert!(matches!(
        ts.toggle_complete(abs),
        CompleteOutcome::Completed { .. }
    ));
    // A blank text, a task that is not there, a tag that is there already, and a
    // root file that cannot be written.
    assert_eq!(ts.add_finalized("  "), AddOutcome::Empty);
    assert_eq!(ts.delete(99), DeleteOutcome::OutOfRange);
    let root = position(&ts, "root task");
    assert_eq!(ts.edit_line(root, " "), EditOutcome::Empty);
    assert_eq!(ts.add_project(root, "root"), TagOutcome::Kept);
    assert_eq!(ts.toggle_context(root, " "), TagOutcome::Empty);
    assert_eq!(ts.complete_many(&[99]), BulkCompleteOutcome::NothingToComplete);
    assert_eq!(ts.delete_many(&[99]), BulkDeleteOutcome::Nothing);
    let si = (0..ts.store_count())
        .find(|&si| joined(&ts.slot(si, FileKind::Todo).path) == "r/todo.md")
        .unwrap();
    let body = on_disk(&ts, "r/todo.md");
    ts.load_slot(si, FileKind::Todo, Some(body), false);
    let locked = StoreError::NotWritable;
    assert_eq!(ts.add_finalized("x"), AddOutcome::Error(locked));
    assert_eq!(ts.toggle_complete(root), CompleteOutcome::Error(locked));
    assert_eq!(ts.cycle_priority(root), PriorityOutcome::Error(locked));
    assert_eq!(ts.undo(), UndoOutcome::Undone);
    assert_eq!(raws(&ts), before);
    assert_eq!(ts.undo(), UndoOutcome::Nothing);
}

#[test]
fn undo_passes_over_an_aborted_add() {
    let mut ts = fixture("2026-06-23");
    let abs = position(&ts, "ship alpha");
    ts.toggle_complete(abs);
    let source = joined(ts.source(abs).unwrap());
    let si = (0..ts.store_count())
        .find(|&si| joined(&ts.slot(si, FileKind::Todo).path) == "r/todo.md")
        .unwrap();
    ts.load_slot(si, FileKind::Todo, Some("other\n".into()), true);
    assert_eq!(
        ts.add_finalized("x"),
        AddOutcome::Aborted(Reconcile::Reloaded)
    );
    assert_eq!(ts.undo(), UndoOutcome::Undone);
    assert!(!on_disk(&ts, &source).contains("- [x]"));
    assert_eq!(on_disk(&ts, "r/todo.md"), "other\n");
}

/// Three files, each with one task.
fn three() -> TreeStore {
    TreeStore::open(
        path("r"),
        vec![
            file("r/a/todo.md", "a\n"),
            file("r/b/todo.md", "b\n"),
            file("r/todo.md", "c\n"),
        ],
        String::new(),
        "2026-06-23".into(),
    )
}

#[test]
fn the_first_error_ends_a_bulk_run() {
    let mut ts = three();
    ts.load_slot(1, FileKind::Todo, Some("b\n".into()), false);
    assert_eq!(
        ts.complete_many(&[0, 1, 2]),
        BulkCompleteOutcome::Error(StoreError::NotWritable)
    );
    let done: Vec<bool> = ts.tasks().iter().map(|t| t.done).collect();
    assert_eq!(done, vec![true, false, false]);
    assert_eq!(
        ts.delete_many(&[1, 2]),
        BulkDeleteOutcome::Error(StoreError::NotWritable)
    );
    assert_eq!(ts.tasks().len(), 3);
}

#[test]
fn the_last_abort_of_a_bulk_run_is_reported() {
    let mut ts = three();
    ts.load_slot(0, FileKind::Todo, Some("z\n".into()), true);
    ts.load_slot(1, FileKind::Todo, None, true);
    assert_eq!(
        ts.complete_many(&[0, 1, 2]),
        BulkCompleteOutcome::Aborted(Reconcile::ReadError)
    );
    // The file that was not aborted is changed, and that can be undone.
    assert_eq!(raws(&ts), vec!["- [ ] z", "- [ ] b", "- [x] 2026-06-23 c"]);
    assert_eq!(ts.undo(), UndoOutcome::Undone);
    assert_eq!(raws(&ts), vec!["- [ ] z", "- [ ] b", "- [ ] c"]);
}

#[test]
fn an_abort_ends_archiving() {
    let mut ts = three();
    ts.complete_many(&[0, 1, 2]);
    ts.load_slot(1, FileKind::Todo, Some("z\n".into()), true);
    assert_eq!(
        ts.archive_completed(),
        ArchiveOutcome::Aborted(Reconcile::Reloaded)
    );
    assert_eq!(raws(&ts), vec!["- [ ] z", "- [x] 2026-06-23 c"]);
}
