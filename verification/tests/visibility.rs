use tuxemdo::filter::ListDueBucket;
use tuxemdo::jump::JumpCandidate;
use tuxemdo::outcome::AddOutcome;
use tuxemdo::path::TreePath;
use tuxemdo::store::Archive;
use tuxemdo::todo::parse_file;
use tuxemdo::tree::{LoadedFile, TreeStore};
use tuxemdo::types::{Mode, Sort, View};
use tuxemdo::visibility::{App, GroupKey, TreeRow};

fn path(s: &str) -> TreePath {
    TreePath {
        parts: s.split('/').map(|p| p.to_string()).collect(),
    }
}

fn build_app(raw: &str) -> App {
    App::new(TreeStore::open_file(
        path("home/todo.md"),
        raw.into(),
        "2026-05-06".into(),
    ))
}

fn file(at: &str, body: &str) -> LoadedFile {
    LoadedFile {
        path: path(at),
        body: body.into(),
    }
}

/// Three directories: the root, `home` with `home/garden` below it, and `work`.
fn build_tree() -> App {
    App::new(TreeStore::open(
        path("r"),
        vec![
            file("r/todo.md", "root\n"),
            file("r/work/todo.md", "w1\nw2\n"),
            file("r/home/todo.md", "h1\n"),
            file("r/home/garden/todo.md", "g1\n"),
        ],
        String::new(),
        "2026-05-06".into(),
    ))
}

fn bodies(app: &App) -> Vec<String> {
    app.visible_indices()
        .iter()
        .map(|&i| app.tasks()[i].body.clone())
        .collect()
}

fn header(depth: usize, name: &str, collapsed: bool) -> TreeRow {
    TreeRow::Header {
        depth,
        name: name.into(),
        collapsed,
    }
}

fn row(vis: usize, depth: usize) -> TreeRow {
    TreeRow::Task { vis, depth }
}

#[test]
fn search_matches_subsequence() {
    let mut app = build_app("2026-05-01 Call dentist\n2026-05-01 buy milk\n");
    app.filter.search = "cade".into();
    app.recompute_visible();
    assert_eq!(app.visible_indices().len(), 1);
}

#[test]
fn search_matches_body_not_dates() {
    let mut app = build_app("2026-05-01 buy milk\n2026-04-01 something else\n");
    app.filter.search = "2026".into();
    app.recompute_visible();
    assert_eq!(app.visible_indices().len(), 0);
}

#[test]
fn visible_cache_updates_after_mutation() {
    let mut app = build_app("a\nb\nc\n");
    assert_eq!(app.visible_indices().len(), 3);
    app.draft_set("d".into());
    app.add_from_draft();
    assert_eq!(app.visible_indices().len(), 4);
}

#[test]
fn list_cursor_survives_archive_roundtrip() {
    let mut app = build_app("a\nb\nc\nd\ne\n");
    app.cursor = 3;
    app.set_view(View::Archive);
    app.set_view(View::List);
    assert_eq!(app.cursor, 3, "cursor lost on List → Archive → List");
}

#[test]
fn archive_indices_point_into_archive_tasks() {
    let mut app = build_app("a\n");
    let path = app.archive().path().clone();
    app.store.set_primary_archive(Archive::for_test(
        parse_file("- [x] 2026-05-01 2026-04-01 first\n- [x] 2026-05-02 2026-04-02 second\n"),
        String::new(),
        path,
    ));
    app.set_view(View::Archive);
    let idxs = app.visible_indices();
    assert_eq!(idxs.len(), 2);
    for &i in idxs {
        assert!(app.archive().tasks().get(i).is_some());
    }
}

#[test]
fn list_groups_are_none_under_sort_file() {
    let mut app = build_app("(A) a\n(B) b\nc\n");
    app.prefs.sort = Sort::File;
    app.recompute_visible();
    let groups = app.visible_groups();
    assert_eq!(groups.len(), 3);
    for g in groups {
        assert!(matches!(g, GroupKey::Plain));
    }
}

#[test]
fn list_groups_track_priority_under_sort_priority() {
    let mut app = build_app("(A) a\n(B) b\nc\n(A) a2\n");
    app.prefs.sort = Sort::Priority;
    app.recompute_visible();
    let groups = app.visible_groups();
    assert_eq!(groups.len(), 4);
    assert_eq!(groups[0], GroupKey::ListPriority(Some('A')));
    assert_eq!(groups[1], GroupKey::ListPriority(Some('A')));
    assert_eq!(groups[2], GroupKey::ListPriority(Some('B')));
    assert_eq!(groups[3], GroupKey::ListPriority(None));
}

#[test]
fn list_groups_bucket_due_dates_under_sort_due() {
    let raw = "a due:2026-05-04\n\
               b due:2026-05-06\n\
               c due:2026-05-08\n\
               d due:2026-05-15\n\
               e due:2026-05-25\n\
               f\n";
    let mut app = build_app(raw);
    app.prefs.sort = Sort::Due;
    app.recompute_visible();
    let groups = app.visible_groups();
    assert_eq!(groups.len(), 6);
    assert_eq!(groups[0], GroupKey::ListDue(ListDueBucket::Overdue));
    assert_eq!(groups[1], GroupKey::ListDue(ListDueBucket::Today));
    assert_eq!(groups[2], GroupKey::ListDue(ListDueBucket::ThisWeek));
    assert_eq!(groups[3], GroupKey::ListDue(ListDueBucket::NextWeek));
    assert_eq!(groups[4], GroupKey::ListDue(ListDueBucket::Later));
    assert_eq!(groups[5], GroupKey::ListDue(ListDueBucket::NoDue));
}

#[test]
fn future_absolute_threshold_hidden_by_default() {
    let mut app = build_app("future task t:2030-01-01\nvisible task\n");
    assert_eq!(app.visible_indices().len(), 1);
    assert_eq!(
        app.tasks()[app.visible_indices()[0]].raw,
        "- [ ] visible task"
    );
    app.prefs.show_future = true;
    app.recompute_visible();
    assert_eq!(app.visible_indices().len(), 2);
}

#[test]
fn relative_threshold_anchors_on_due() {
    let mut app = build_app("Pay rent due:2026-05-15 t:-3d\n");
    assert_eq!(app.visible_indices().len(), 0);
    app.prefs.show_future = true;
    app.recompute_visible();
    assert_eq!(app.visible_indices().len(), 1);
}

#[test]
fn refresh_today_unhides_tasks_when_date_advances() {
    let mut app = build_app("future task t:2026-05-07\nvisible task\n");
    assert_eq!(app.visible_indices().len(), 1);
    let changed = app.refresh_today("2026-05-07".into());
    assert!(changed);
    assert_eq!(app.today(), "2026-05-07");
    assert_eq!(app.visible_indices().len(), 2);
}

#[test]
fn refresh_today_is_noop_when_date_unchanged() {
    let mut app = build_app("a\n");
    let changed = app.refresh_today("2026-05-06".into());
    assert!(!changed);
    assert_eq!(app.today(), "2026-05-06");
}

#[test]
fn archive_visible_groups_are_done_date_desc() {
    let mut app = build_app("a\n");
    let path = app.archive().path().clone();
    app.store.set_primary_archive(Archive::for_test(
        parse_file("- [x] 2026-04-01 2026-03-01 older\n- [x] 2026-05-02 2026-04-02 newer\n"),
        String::new(),
        path,
    ));
    app.set_view(View::Archive);
    let groups = app.visible_groups();
    assert_eq!(groups.len(), 2);
    let first = match &groups[0] {
        GroupKey::ArchiveDate(d) => d.as_str(),
        _ => panic!("expected ArchiveDate"),
    };
    let second = match &groups[1] {
        GroupKey::ArchiveDate(d) => d.as_str(),
        _ => panic!("expected ArchiveDate"),
    };
    assert_eq!(first, "2026-05-02");
    assert_eq!(second, "2026-04-01");
}

#[test]
fn a_tree_shows_headers_for_new_directories() {
    let app = build_tree();
    assert!(app.is_tree_mode());
    assert_eq!(bodies(&app), vec!["g1", "h1", "root", "w1", "w2"]);
    assert_eq!(
        app.tree_rows(),
        &[
            header(0, "home", false),
            header(1, "garden", false),
            row(0, 2),
            row(1, 1),
            row(2, 0),
            header(0, "work", false),
            row(3, 1),
            row(4, 1),
        ]
    );
    assert_eq!(app.visible_groups().len(), 5);
    assert!(app.visible_groups().iter().all(|g| *g == GroupKey::Plain));
}

#[test]
fn collapsing_leaves_the_header_and_hides_what_is_below() {
    let mut app = build_tree();
    app.cursor = 1; // h1, in home
    app.toggle_collapse_current();
    assert_eq!(bodies(&app), vec!["root", "w1", "w2"]);
    assert_eq!(
        app.tree_rows(),
        &[
            header(0, "home", true),
            row(0, 0),
            header(0, "work", false),
            row(1, 1),
            row(2, 1),
        ]
    );
    app.expand_all();
    assert!(app.collapsed.is_empty());
    assert_eq!(bodies(&app), vec!["g1", "h1", "root", "w1", "w2"]);
}

#[test]
fn collapsing_an_inner_directory_keeps_the_outer_one_open() {
    let mut app = build_tree();
    app.cursor = 0; // g1, in home/garden
    app.toggle_collapse_current();
    assert_eq!(bodies(&app), vec!["h1", "root", "w1", "w2"]);
    assert_eq!(
        &app.tree_rows()[..3],
        &[header(0, "home", false), header(1, "garden", true), row(0, 1)]
    );
}

#[test]
fn collapsing_at_the_end_clamps_the_cursor() {
    let mut app = build_tree();
    app.cursor = 4; // w2
    app.toggle_collapse_current();
    assert_eq!(bodies(&app), vec!["g1", "h1", "root"]);
    assert_eq!(app.cursor, 2);
    assert_eq!(app.cur_abs(), Some(app.visible_indices()[2]));
}

#[test]
fn a_root_task_has_no_folder_to_collapse() {
    let mut app = build_tree();
    app.cursor = 2; // root
    app.toggle_collapse_current();
    assert_eq!(
        app.message.as_deref(),
        Some("root tasks have no folder to collapse")
    );
    assert!(app.collapsed.is_empty());
    assert_eq!(app.visible_indices().len(), 5);
}

#[test]
fn a_single_file_has_nothing_to_collapse() {
    let mut app = build_app("a\n");
    app.toggle_collapse_current();
    assert!(!app.is_tree_mode());
    assert!(app.collapsed.is_empty());
    assert!(app.message.is_none());
    assert!(app.tree_rows().is_empty());
}

#[test]
fn filtered_tasks_take_their_headers_with_them() {
    let mut app = build_tree();
    app.filter.search = "w".into();
    app.recompute_visible();
    assert_eq!(
        app.tree_rows(),
        &[header(0, "work", false), row(0, 1), row(1, 1)]
    );
}

#[test]
fn sorting_by_priority_keeps_file_order_among_equals() {
    let mut app = build_app("c\n(B) b\n(A) a\n(B) b2\n");
    app.prefs.sort = Sort::Priority;
    app.recompute_visible();
    assert_eq!(app.visible_indices(), &[2, 1, 3, 0]);
}

#[test]
fn done_tasks_can_be_hidden() {
    let mut app = build_app("- [x] 2026-05-01 a\n- [ ] b\n");
    assert_eq!(app.visible_indices(), &[0, 1]);
    app.prefs.show_done = false;
    app.recompute_visible();
    assert_eq!(app.visible_indices(), &[1]);
}

#[test]
fn project_and_context_filter_whole_words() {
    let mut app = build_app("a +home @desk\nb +homes\nc @desk\n");
    app.filter.project = Some("home".into());
    app.recompute_visible();
    assert_eq!(app.visible_indices(), &[0]);
    app.filter.project = None;
    app.filter.context = Some("desk".into());
    app.recompute_visible();
    assert_eq!(app.visible_indices(), &[0, 2]);
}

#[test]
fn follow_cursor_finds_a_task_or_clamps() {
    let mut app = build_app("c\n(B) b\n(A) a\n");
    app.prefs.sort = Sort::Priority;
    app.recompute_visible();
    app.follow_cursor(0);
    assert_eq!(app.cursor, 2);
    app.cursor = 9;
    app.follow_cursor(77);
    assert_eq!(app.cursor, 2);
}

#[test]
fn clamping_an_empty_list_goes_to_the_top() {
    let mut app = build_app("a\n");
    app.filter.search = "zzz".into();
    app.recompute_visible();
    app.cursor = 5;
    app.clamp_cursor();
    assert_eq!(app.cursor, 0);
    assert_eq!(app.cur_abs(), None);
}

#[test]
fn archived_tasks_without_a_date_come_last() {
    let mut app = build_app("a\n");
    let path = app.archive().path().clone();
    app.store.set_primary_archive(Archive::for_test(
        parse_file("- [x] undated\n- [x] 2026-05-02 dated\n- [x] also undated\n"),
        String::new(),
        path,
    ));
    app.set_view(View::Archive);
    assert_eq!(app.visible_indices(), &[1, 0, 2]);
    assert_eq!(
        app.visible_groups()[1],
        GroupKey::ArchiveDate("unknown".into())
    );
}

#[test]
fn the_archive_view_has_a_cursor_of_its_own() {
    let mut app = build_app("a\nb\nc\n");
    let path = app.archive().path().clone();
    app.store.set_primary_archive(Archive::for_test(
        parse_file("- [x] x\n- [x] y\n"),
        String::new(),
        path,
    ));
    app.cursor = 2;
    app.set_view(View::Archive);
    assert_eq!(app.cursor, 0);
    app.cursor = 1;
    app.set_view(View::List);
    assert_eq!(app.cursor, 2);
    app.set_view(View::Archive);
    assert_eq!(app.cursor, 1);
}

#[test]
fn recomputing_again_changes_nothing() {
    let mut app = build_tree();
    let before = (app.visible_indices().to_vec(), app.tree_rows().to_vec());
    app.recompute_visible();
    assert_eq!(app.visible_indices(), &before.0[..]);
    assert_eq!(app.tree_rows(), &before.1[..]);
}

#[test]
fn a_blank_draft_is_kept_and_reported() {
    let mut app = build_app("a\n");
    app.draft_set("  \t ".into());
    assert_eq!(app.add_from_draft(), AddOutcome::Empty);
    assert_eq!(app.draft.text(), "  \t ");
    assert_eq!(app.tasks().len(), 1);
    app.draft_set("b".into());
    assert_eq!(app.add_from_draft(), AddOutcome::Added);
    assert_eq!(app.draft.text(), "");
    assert_eq!(app.tasks()[1].raw, "- [ ] b");
}

#[test]
fn a_number_jumps_to_that_row() {
    let mut app = build_app("a\nb\nc\n");
    for (draft, row) in [("1", 0), ("3", 2), ("003", 2), ("0", 0)] {
        app.draft_set(draft.into());
        assert_eq!(app.jump_row(), Some(row));
        app.confirm_jump();
        assert_eq!(app.cursor, row);
    }
    app.draft_set("99999999999999999999999999999999999999999999".into());
    app.confirm_jump();
    assert_eq!(app.cursor, 2);
}

#[test]
fn a_query_jumps_to_the_highlighted_hit() {
    let mut app = build_app("a\nb\nc\n");
    let cand = |target: usize, label: &str| JumpCandidate {
        target,
        label: label.into(),
        area: String::new(),
        is_area: false,
    };
    app.jump
        .open(Mode::Normal, vec![cand(0, "a"), cand(1, "b"), cand(2, "c")]);
    app.draft_set("b".into());
    app.jump.refresh("b");
    assert_eq!(app.jump_row(), Some(1));
    app.confirm_jump();
    assert_eq!(app.cursor, 1);
    app.draft_set("zz".into());
    app.jump.refresh("zz");
    assert_eq!(app.jump_row(), None);
    app.confirm_jump();
    assert_eq!(app.cursor, 1);
}

#[test]
fn a_number_has_no_row_in_an_empty_list() {
    let mut app = build_app("");
    app.draft_set("1".into());
    assert_eq!(app.jump_row(), None);
}
