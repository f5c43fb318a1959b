//! What holds of a tree of task files across operations.
use crate::line;
use crate::order;
use crate::outcome::{Reconcile, UndoOutcome};
use crate::path;
use crate::store;
use crate::store::StoreView;
use crate::todo;
use crate::tree;
use crate::tree::{LoadedFile, TreeView};
use vstd::prelude::*;

verus! {

/// A change of one file leaves every other file's store, the root and the day
/// as they were.
pub proof fn a_change_touches_one_file(
    m: TreeView,
    si: int,
    store: StoreView,
    changed: bool,
    other: int,
)
    requires
        0 <= si < m.stores.len(),
        0 <= other < m.stores.len(),
        other != si,
    ensures
        ({
            let after = m.with_store(si, store).noted(si, changed);
            &&& after.stores.len() == m.stores.len()
            &&& after.stores[si] == store
            &&& after.stores[other] == m.stores[other]
            &&& after.root == m.root
            &&& after.today == m.today
        }),
{
}

/// The flat list depends on the lines of the stores alone.
pub proof fn lemma_flat_lines_same(a: Seq<StoreView>, b: Seq<StoreView>)
    requires
        a.len() == b.len(),
        forall|i: int| 0 <= i < a.len() ==> (#[trigger] a[i]).lines == b[i].lines,
    ensures
        tree::flat_lines(a) == tree::flat_lines(b),
    decreases a.len(),
{
    if a.len() > 0 {
        assert forall|i: int| 0 <= i < a.drop_last().len() implies (#[trigger] a.drop_last()[i]).lines
            == b.drop_last()[i].lines by {
            assert(a.drop_last()[i] == a[i]);
        }
        lemma_flat_lines_same(a.drop_last(), b.drop_last());
        assert(a[a.len() - 1].lines == b[b.len() - 1].lines);
    }
}

/// A store that is found is one of the stores.
pub proof fn lemma_store_over_range(stores: Seq<StoreView>, p: Seq<Seq<char>>, i: int)
    requires
        0 <= i,
    ensures
        tree::store_over(stores, p, i) matches Some(j) ==> i <= j < stores.len(),
    decreases stores.len() - i,
{
    if i < stores.len() && stores[i].file.path != p {
        lemma_store_over_range(stores, p, i + 1);
    }
}

proof fn lemma_store_over(stores: Seq<StoreView>, p: Seq<Seq<char>>, i: int, k: int)
    requires
        0 <= i <= k < stores.len(),
        stores[k].file.path == p,
    ensures
        store_found(stores, p, i),
    decreases k - i,
{
    if stores[i].file.path != p {
        lemma_store_over(stores, p, i + 1, k);
    }
}

spec fn store_found(stores: Seq<StoreView>, p: Seq<Seq<char>>, i: int) -> bool {
    tree::store_over(stores, p, i) matches Some(j) && i <= j < stores.len()
        && stores[j].file.path == p
}

/// A newly opened tree has a store over the root's own file, and that is where
/// new tasks go.
pub proof fn opened_tree_has_a_root_file(
    m: TreeView,
    found: Seq<LoadedFile>,
    by_path: Seq<usize>,
    root_body: Seq<char>,
)
    requires
        tree::is_by_path(by_path, found),
        m.stores == tree::opened_stores(m.root, found, by_path, root_body, m.today),
    ensures
        0 <= m.root_index() < m.stores.len(),
        m.stores[m.root_index()].file.path == m.root_todo(),
{
    if exists|k: int| 0 <= k < found.len() && (#[trigger] found[k]).path@ == m.root_todo() {
        let k = choose|k: int| 0 <= k < found.len() && (#[trigger] found[k]).path@ == m.root_todo();
        let keep = Seq::new(found.len(), |i: int| true);
        assert(keep[k]);
        let q = choose|q: int| 0 <= q < by_path.len() && by_path[q] == k;
        assert(m.stores[q].file.path == m.root_todo());
        lemma_store_over(m.stores, m.root_todo(), 0, q);
    } else {
        assert(m.stores[0].file.path == m.root_todo());
    }
}

/// Where the file found at index `k` stands in an opened tree.
spec fn place_of(root: Seq<Seq<char>>, found: Seq<LoadedFile>, q: int) -> int {
    if exists|j: int| 0 <= j < found.len() && (#[trigger] found[j]).path@ == root.push("todo.md"@) {
        q
    } else {
        q + 1
    }
}

/// Opening keeps every file that was found. If no two of them have the same
/// path, each is there once.
pub proof fn opened_tree_keeps_every_file(
    root: Seq<Seq<char>>,
    found: Seq<LoadedFile>,
    by_path: Seq<usize>,
    root_body: Seq<char>,
    today: Seq<char>,
    k: int,
)
    requires
        tree::is_by_path(by_path, found),
        0 <= k < found.len(),
    ensures
        ({
            let stores = tree::opened_stores(root, found, by_path, root_body, today);
            &&& exists|si: int|
                0 <= si < stores.len() && #[trigger] stores[si] == tree::fresh_store(
                    found[k].path@,
                    found[k].body@,
                    today,
                )
            &&& (forall|i: int, j: int|
                0 <= i < j < found.len() ==> (#[trigger] found[i]).path@ != (
                #[trigger] found[j]).path@) ==> forall|a: int, b: int|
                0 <= a < stores.len() && 0 <= b < stores.len() && (
                #[trigger] stores[a]).file.path == found[k].path@ && (
                #[trigger] stores[b]).file.path == found[k].path@ ==> a == b
        }),
{
    let keep = Seq::new(found.len(), |i: int| true);
    assert(keep[k]);
    let q = choose|q: int| 0 <= q < by_path.len() && by_path[q] == k;
    let stores = tree::opened_stores(root, found, by_path, root_body, today);
    let rest = tree::fresh_stores(found, by_path, today);
    assert(rest[q] == tree::fresh_store(found[k].path@, found[k].body@, today));
    assert(stores[place_of(root, found, q)] == rest[q]);
    if forall|i: int, j: int|
        0 <= i < j < found.len() ==> (#[trigger] found[i]).path@ != (#[trigger] found[j]).path@ {
        order::listing_has_no_repeats(by_path, keep, found);
        assert forall|a: int| 0 <= a < stores.len() && (#[trigger] stores[a]).file.path
            == found[k].path@ implies a == place_of(root, found, q) by {
            let shift = place_of(root, found, 0);
            if a < shift {
                assert(stores[a].file.path == root.push("todo.md"@));
                assert(found[k].path@ == root.push("todo.md"@));
            } else {
                let p = a - shift;
                assert(stores[a] == rest[p]);
                let i = by_path[p] as int;
                assert(keep[i]);
                assert(found[i].path@ == found[k].path@);
                assert(i == k);
                assert(by_path[p] == by_path[q]);
            }
        }
    }
}

/// The area of a task is the directory of its file below the root; it is empty
/// for the root's own file.
pub proof fn area_is_the_directory_below_the_root(
    m: TreeView,
    abs: int,
    below: Seq<Seq<char>>,
    name: Seq<char>,
)
    requires
        m.located(abs) matches Some((si, _)) && m.stores[si as int].file.path == (m.root
            + below).push(name),
    ensures
        m.area_of(abs) == below,
{
    assert((m.root + below).push(name).drop_last() =~= m.root + below);
    path::relative_path_rejoins(m.root, below);
}

/// When no file has changed, reconciling changes nothing.
pub proof fn quiet_reconcile_changes_nothing(m: TreeView)
    requires
        m.reconciled().1 == Reconcile::Unchanged,
    ensures
        m.reconciled().0 == m,
{
    assert forall|i: int| 0 <= i < m.stores.len() implies m.reconciled().0.stores[i]
        == m.stores[i] by {
        assert(m.stores[i].reconciled().1 != Reconcile::Reloaded);
        assert(m.stores[i].reconciled().1 != Reconcile::ReadError);
    }
    assert(m.reconciled().0 =~= m);
}

/// After reconciling, every file that can be read is as its store knows it.
pub proof fn reconcile_settles(m: TreeView, si: int)
    requires
        0 <= si < m.stores.len(),
        m.stores[si].file.text is Some,
    ensures
        m.reconciled().0.stores[si].file.text == Some(m.reconciled().0.stores[si].synced),
        m.reconciled().0.stores[si].reconciled().1 == Reconcile::Unchanged,
{
}

proof fn lemma_with_done(lines: Seq<Seq<char>>, done: bool, i: int)
    requires
        0 <= i < store::with_done(lines, done).len(),
    ensures
        line::parts_of(store::with_done(lines, done)[i]).done == done,
    decreases lines.len(),
{
    let before = store::with_done(lines.drop_last(), done);
    if i < before.len() {
        lemma_with_done(lines.drop_last(), done, i);
    }
}

proof fn lemma_no_done_left(lines: Seq<Seq<char>>, i: int)
    requires
        store::with_done(lines, true).len() == 0,
        0 <= i < lines.len(),
    ensures
        !line::parts_of(lines[i]).done,
    decreases lines.len(),
{
    if i < lines.len() - 1 {
        lemma_no_done_left(lines.drop_last(), i);
        assert(lines.drop_last()[i] == lines[i]);
    }
}

proof fn lemma_archived_store(s: StoreView, i: int)
    requires
        s.archive_done().1 is Archived || s.archive_done().1 is Nothing,
        0 <= i < s.archive_done().0.lines.len(),
    ensures
        !line::parts_of(s.archive_done().0.lines[i]).done,
{
    if s.archive_done().1 is Archived {
        lemma_with_done(s.lines, false, i);
    } else {
        lemma_no_done_left(s.lines, i);
    }
}

proof fn lemma_archiving_leaves_none(m: TreeView, k: nat, si: int, i: int)
    requires
        k <= m.stores.len(),
        m.archiving(k).stop is None,
        0 <= si < k,
        0 <= i < m.archiving(k).tree.stores[si].lines.len(),
    ensures
        !line::parts_of(m.archiving(k).tree.stores[si].lines[i]).done,
    decreases k,
{
    lemma_archiving_shape(m, k);
    lemma_archiving_shape(m, (k - 1) as nat);
    let run = m.archiving((k - 1) as nat);
    if si < k - 1 {
        assert(m.archiving(k).tree.stores[si] == run.tree.stores[si]);
        lemma_archiving_leaves_none(m, (k - 1) as nat, si, i);
    } else {
        lemma_archived_store(run.tree.stores[si], i);
    }
}

proof fn lemma_archiving_shape(m: TreeView, k: nat)
    requires
        k <= m.stores.len(),
    ensures
        m.archiving(k).tree.stores.len() == m.stores.len(),
        forall|i: int|
            k <= i < m.stores.len() ==> (#[trigger] m.archiving(k).tree.stores[i]) == m.stores[i],
    decreases k,
{
    if k > 0 {
        lemma_archiving_shape(m, (k - 1) as nat);
    }
}

/// When archiving succeeds, no completed task is left in any file.
pub proof fn archiving_leaves_no_completed_task(m: TreeView, si: int, i: int)
    requires
        m.archive_all().1 is Archived || m.archive_all().1 is Nothing,
        0 <= si < m.stores.len(),
        0 <= i < m.archive_all().0.stores[si].lines.len(),
    ensures
        !line::parts_of(m.archive_all().0.stores[si].lines[i]).done,
{
    let run = m.archiving(m.stores.len());
    if run.stop is Some {
        lemma_archive_stop(m, m.stores.len());
    }
    lemma_archiving_leaves_none(m, m.stores.len(), si, i);
}

proof fn lemma_archive_stop(m: TreeView, k: nat)
    ensures
        m.archiving(k).stop matches Some(out) ==> out is Aborted || out is Error,
    decreases k,
{
    if k > 0 {
        lemma_archive_stop(m, (k - 1) as nat);
    }
}

/// A file that a store has written holds the store's tasks: a new store over
/// it has the same lines.
pub proof fn written_store_reads_back(s: StoreView, lines: Seq<Seq<char>>)
    requires
        todo::all_canonical(lines),
    ensures
        s.written(lines).file.text matches Some(t) && StoreView::fresh(
            s.file.path,
            s.done_file.path,
            s.inbox.path,
            t,
            s.today,
        ).lines == lines,
{
    todo::written_file_reads_back(lines);
}

/// The primary file is the first that is the root's own `todo.md`, or the first
/// of all where there is none.
pub proof fn the_root_file_is_todo_md_at_the_root(m: TreeView)
    requires
        m.stores.len() > 0,
    ensures
        0 <= m.root_index() < m.stores.len(),
        (exists|i: int|
            0 <= i < m.stores.len() && (#[trigger] m.stores[i]).file.path == m.root.push(
                "todo.md"@,
            )) ==> m.stores[m.root_index()].file.path == m.root.push("todo.md"@),
        m.stores[m.root_index()].file.path == m.root.push("todo.md"@) ==> forall|i: int|
            0 <= i < m.root_index() ==> (#[trigger] m.stores[i]).file.path != m.root.push(
                "todo.md"@,
            ),
        m.stores[m.root_index()].file.path != m.root.push("todo.md"@) ==> m.root_index() == 0,
{
    lemma_first_over(m.stores, m.root_todo(), 0);
}

proof fn lemma_first_over(stores: Seq<StoreView>, p: Seq<Seq<char>>, i: int)
    requires
        0 <= i,
    ensures
        match tree::store_over(stores, p, i) {
            Some(k) => i <= k < stores.len() && stores[k].file.path == p && forall|j: int|
                i <= j < k ==> (#[trigger] stores[j]).file.path != p,
            None => forall|j: int| i <= j < stores.len() ==> (#[trigger] stores[j]).file.path != p,
        },
    decreases stores.len() - i,
{
    if i < stores.len() && stores[i].file.path != p {
        lemma_first_over(stores, p, i + 1);
    }
}

/// Reconciling takes over every file that holds something else than was last
/// read or written, and tells whether there was one, or else whether one could
/// not be read; the steps back are kept only where nothing was found.
pub proof fn reconciling_takes_over_what_changed(m: TreeView, si: int)
    requires
        0 <= si < m.stores.len(),
    ensures
        ({
            let (t, out) = m.reconciled();
            let s = m.stores[si];
            &&& t.stores.len() == m.stores.len()
            &&& t.root == m.root && t.today == m.today
            &&& s.file.text is Some && s.file.text->0 != s.synced ==> out == Reconcile::Reloaded
                && t.stores[si].lines == todo::task_lines(s.file.text->0) && t.stores[si].synced
                == s.file.text->0 && t.stores[si].history.len() == 0
            &&& s.file.text is None || s.file.text == Some(s.synced) ==> t.stores[si] == s
            &&& s.file.text is None ==> out != Reconcile::Unchanged
            &&& out == Reconcile::Unchanged ==> t.undo_order == m.undo_order
            &&& out != Reconcile::Unchanged ==> t.undo_order.len() == 0
        }),
        m.reconciled().1 == Reconcile::Reloaded ==> exists|i: int|
            0 <= i < m.stores.len() && (#[trigger] m.stores[i]).file.text is Some
                && m.stores[i].file.text->0 != m.stores[i].synced,
        m.reconciled().1 == Reconcile::ReadError ==> exists|i: int|
            0 <= i < m.stores.len() && (#[trigger] m.stores[i]).file.text is None,
{
    assert(m.stores[si].reconciled().1 == Reconcile::Reloaded || m.stores[si].reconciled().1
        == Reconcile::ReadError || m.stores[si].reconciled().1 == Reconcile::Unchanged);
    if m.reconciled().1 == Reconcile::Reloaded {
        let i = choose|i: int|
            0 <= i < m.stores.len() && (#[trigger] m.stores[i]).reconciled().1
                == Reconcile::Reloaded;
        assert(m.stores[i].file.text is Some);
    }
    if m.reconciled().1 == Reconcile::ReadError {
        let i = choose|i: int|
            0 <= i < m.stores.len() && (#[trigger] m.stores[i]).reconciled().1
                == Reconcile::ReadError;
        assert(m.stores[i].file.text is None);
    }
}

/// A new day is taken over by the tree and by every file; nothing else changes,
/// and a day that all of them have already is no news.
pub proof fn a_new_day_reaches_every_file(m: TreeView, today: Seq<char>, si: int)
    requires
        0 <= si < m.stores.len(),
    ensures
        ({
            let t = m.on_day(today);
            &&& t.stores.len() == m.stores.len()
            &&& t.stores[si].today == today
            &&& t.stores[si].lines == m.stores[si].lines
            &&& t.stores[si].file == m.stores[si].file
            &&& t.stores[si].history == m.stores[si].history
            &&& t.stores[si].archive == m.stores[si].archive
            &&& t.root == m.root && t.undo_order == m.undo_order
            &&& m.stores[si].today != today ==> m.on_another_day(today) && t.today == today
        }),
        (forall|i: int| 0 <= i < m.stores.len() ==> (#[trigger] m.stores[i]).today == today)
            ==> !m.on_another_day(today),
{
}

/// A task lies in its file at its place: the area is the directory of that
/// file below the root.
pub proof fn areas_are_those_of_the_files(
    m: TreeView,
    si: int,
    li: int,
    below: Seq<Seq<char>>,
    name: Seq<char>,
)
    requires
        0 < m.stores.len() <= usize::MAX,
        forall|i: int| 0 <= i < m.stores.len() ==> (#[trigger] m.stores[i]).lines.len() <= usize::MAX,
        0 <= si < m.stores.len(),
        0 <= li < m.stores[si].lines.len(),
        m.stores[si].file.path == m.root + below + seq![name],
    ensures
        m.located(tree::start_of(m.stores, si) + li) == Some((si as usize, li as usize)),
        m.area_of(tree::start_of(m.stores, si) + li) == below,
{
    tree::every_task_is_listed_once(m.stores, si, li);
    let abs = tree::start_of(m.stores, si) + li;
    assert(m.stores[si].file.path =~= (m.root + below).push(name));
    area_is_the_directory_below_the_root(m, abs, below, name);
}

/// The files of an opened tree go in the order of their paths, but for a root
/// file that was not found: it goes first.
pub proof fn opened_files_go_by_path(
    root: Seq<Seq<char>>,
    found: Seq<LoadedFile>,
    by_path: Seq<usize>,
    root_body: Seq<char>,
    today: Seq<char>,
    a: int,
    b: int,
)
    requires
        tree::is_by_path(by_path, found),
        0 <= a < b < tree::opened_stores(root, found, by_path, root_body, today).len(),
    ensures
        ({
            let stores = tree::opened_stores(root, found, by_path, root_body, today);
            &&& (exists|k: int|
                0 <= k < found.len() && (#[trigger] found[k]).path@ == root.push("todo.md"@))
                ==> path::path_le(stores[a].file.path, stores[b].file.path)
            &&& a > 0 ==> path::path_le(stores[a].file.path, stores[b].file.path)
            &&& stores[a].lines == todo::task_lines(stores[a].file.text->0)
            &&& stores[a].today == today
        }),
        !(exists|k: int| 0 <= k < found.len() && (#[trigger] found[k]).path@ == root.push("todo.md"@))
            ==> ({
            let first = tree::opened_stores(root, found, by_path, root_body, today)[0];
            &&& first.file.path == root.push("todo.md"@)
            &&& first.file.text == Some(root_body)
        }),
{
    let stores = tree::opened_stores(root, found, by_path, root_body, today);
    let rest = tree::fresh_stores(found, by_path, today);
    let shift = place_of(root, found, 0);
    let (x, y) = (a - shift, b - shift);
    assert(stores[b] == rest[y]);
    if x >= 0 {
        assert(stores[a] == rest[x]);
        assert(order::ahead(found, by_path[x] as int, by_path[y] as int));
    }
}

/// The archive and the inbox of a file lie beside it.
pub proof fn archive_and_inbox_lie_beside_the_file(
    dir: Seq<Seq<char>>,
    name: Seq<char>,
    body: Seq<char>,
    today: Seq<char>,
)
    ensures
        ({
            let s = tree::fresh_store(dir.push(name), body, today);
            &&& s.file.path == dir.push(name)
            &&& s.done_file.path == dir.push("done.md"@)
            &&& s.archive.path == dir.push("done.md"@)
            &&& s.inbox.path == dir.push("inbox.md"@)
            &&& s.lines == todo::task_lines(body)
            &&& s.file.text == Some(body) && s.synced == body
        }),
        tree::dir_of(dir.push(name)) == dir,
{
    assert(dir.push(name).drop_last() =~= dir);
}

proof fn lemma_archiving_runs(m: TreeView, k: nat)
    requires
        k <= m.stores.len(),
        forall|i: int|
            0 <= i < m.stores.len() ==> (#[trigger] m.stores[i]).file.text == Some(
                m.stores[i].synced,
            ) && m.stores[i].file.writable && m.stores[i].done_file.text is Some
                && m.stores[i].done_file.writable,
    ensures
        m.archiving(k).stop is None,
    decreases k,
{
    if k > 0 {
        lemma_archiving_runs(m, (k - 1) as nat);
        lemma_archiving_shape(m, (k - 1) as nat);
        assert(m.stores[k - 1].file.writable);
    }
}

/// Where every file and every archive can be changed, archiving goes through.
pub proof fn archiving_goes_through(m: TreeView)
    requires
        forall|i: int|
            0 <= i < m.stores.len() ==> (#[trigger] m.stores[i]).file.text == Some(
                m.stores[i].synced,
            ) && m.stores[i].file.writable && m.stores[i].done_file.text is Some
                && m.stores[i].done_file.writable,
    ensures
        m.archive_all().1 is Archived || m.archive_all().1 is Nothing,
        m.archive_all().0.undo_order == m.undo_order,
{
    lemma_archiving_runs(m, m.stores.len());
    lemma_archiving_notes_nothing(m, m.stores.len());
}

proof fn lemma_archiving_notes_nothing(m: TreeView, k: nat)
    ensures
        m.archiving(k).tree.undo_order == m.undo_order,
    decreases k,
{
    if k > 0 {
        lemma_archiving_notes_nothing(m, (k - 1) as nat);
    }
}

/// Undo takes one step back in the file that was changed last, and in no other.
pub proof fn undo_goes_to_the_file_changed_last(m: TreeView)
    ensures
        m.undo_order.len() == 0 ==> m.undone() == (m, UndoOutcome::Nothing),
        m.undo_order.len() > 0 && m.undo_order[m.undo_order.len() - 1] < m.stores.len() ==> ({
            let si = m.undo_order[m.undo_order.len() - 1] as int;
            let (t, out) = m.undone();
            &&& t.stores.len() == m.stores.len()
            &&& t.undo_order.len() == m.undo_order.len() - 1
            &&& forall|k: int|
                0 <= k < t.undo_order.len() ==> #[trigger] t.undo_order[k] == m.undo_order[k]
            &&& forall|i: int|
                0 <= i < m.stores.len() && i != si ==> #[trigger] t.stores[i] == m.stores[i]
            &&& out == m.stores[si].undone().1
            &&& out is Undone ==> t.stores[si].lines
                == m.stores[si].history[m.stores[si].history.len() - 1]
        }),
{
}

/// Every file of an opened tree was found, but for a root file that was not: it
/// stands for itself, in front.
pub proof fn opened_files_were_found(
    root: Seq<Seq<char>>,
    found: Seq<LoadedFile>,
    by_path: Seq<usize>,
    root_body: Seq<char>,
    today: Seq<char>,
    si: int,
)
    requires
        tree::is_by_path(by_path, found),
        0 <= si < tree::opened_stores(root, found, by_path, root_body, today).len(),
    ensures
        ({
            let s = tree::opened_stores(root, found, by_path, root_body, today)[si];
            ||| exists|k: int|
                0 <= k < found.len() && s.file.path == (#[trigger] found[k]).path@ && s.file.text
                    == Some(found[k].body@)
            ||| si == 0 && s.file.path == root.push("todo.md"@) && s.file.text == Some(root_body)
        }),
{
    let stores = tree::opened_stores(root, found, by_path, root_body, today);
    let rest = tree::fresh_stores(found, by_path, today);
    let shift = place_of(root, found, 0);
    if si >= shift {
        assert(stores[si] == rest[si - shift]);
        let k = by_path[si - shift] as int;
        assert(0 <= k < found.len());
        assert(stores[si].file.path == found[k].path@);
    }
}

} // verus!
