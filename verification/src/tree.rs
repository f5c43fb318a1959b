//! Multi-file ("tree") aggregation over many `todo.md` files.
//!
//! [`TreeStore`] owns one [`Store`] per `todo.md` and presents their tasks as a
//! single flat list. Every change is routed to the owning file's store; this
//! layer maps a global task index to a store and a local index, remembers in
//! which order the stores were changed, and rebuilds the flat list.
use crate::order;
use crate::order::{listing, Ordered};
use crate::outcome::{
    AddOutcome, ArchiveDeleteOutcome, ArchiveOutcome, BulkCompleteOutcome, BulkDeleteOutcome,
    CompleteOutcome, DeleteOutcome, DrainReport, EditOutcome, PriorityOutcome, Reconcile,
    StoreError, TagOutcome, UnarchiveOutcome, UndoOutcome,
};
use crate::path;
use crate::path::TreePath;
use crate::store;
use crate::store::{Archive, FileKind, FileSlot, Store, StoreView};
use crate::todo;
use crate::todo::Task;
use vstd::prelude::*;

verus! {

/// A task file that was found, and what it holds.
#[derive(Debug)]
pub struct LoadedFile {
    pub path: TreePath,
    pub body: String,
}

/// Loaded files are ordered by path.
impl Ordered for LoadedFile {
    open spec fn at_most(self, other: Self) -> bool {
        self.path.at_most(other.path)
    }

    proof fn total(a: Self, b: Self) {
        TreePath::total(a.path, b.path);
    }

    proof fn transitive(a: Self, b: Self, c: Self) {
        TreePath::transitive(a.path, b.path, c.path);
    }

    fn not_after(&self, other: &Self) -> (r: bool) {
        self.path.not_after(&other.path)
    }
}

/// Many task files below one directory.
#[derive(Debug)]
pub struct TreeStore {
    root: TreePath,
    stores: Vec<Store>,
    /// Flat task view; `agg[i]` is a clone of the task at `map[i]`. Rebuilt
    /// after every change.
    agg: Vec<Task>,
    /// `map[i]` is the store and the local index of `agg[i]`.
    map: Vec<(usize, usize)>,
    /// Store indices in the order of their changes, for undo.
    undo_order: Vec<usize>,
    today: String,
}

#[verifier::ext_equal]
pub struct TreeView {
    pub root: Seq<Seq<char>>,
    pub stores: Seq<StoreView>,
    pub undo_order: Seq<usize>,
    pub today: Seq<char>,
}

pub open spec fn views(stores: Seq<Store>) -> Seq<StoreView> {
    Seq::new(stores.len(), |i: int| stores[i]@)
}

impl View for TreeStore {
    type V = TreeView;

    closed spec fn view(&self) -> TreeView {
        TreeView {
            root: self.root@,
            stores: views(self.stores@),
            undo_order: self.undo_order@,
            today: self.today@,
        }
    }
}

/// The store and the local index of every task, the first store's tasks first.
pub open spec fn slots(stores: Seq<StoreView>) -> Seq<(usize, usize)>
    decreases stores.len(),
{
    if stores.len() == 0 {
        Seq::empty()
    } else {
        slots(stores.drop_last()) + Seq::new(
            stores.last().lines.len(),
            |j: int| ((stores.len() - 1) as usize, j as usize),
        )
    }
}

/// The lines of all stores, the first store's lines first.
pub open spec fn flat_lines(stores: Seq<StoreView>) -> Seq<Seq<char>>
    decreases stores.len(),
{
    if stores.len() == 0 {
        Seq::empty()
    } else {
        flat_lines(stores.drop_last()) + stores.last().lines
    }
}

/// The first store from `i` on that is over the file `p`.
pub open spec fn store_over(stores: Seq<StoreView>, p: Seq<Seq<char>>, i: int) -> Option<int>
    decreases stores.len() - i,
{
    if i >= stores.len() {
        None
    } else if stores[i].file.path == p {
        Some(i)
    } else {
        store_over(stores, p, i + 1)
    }
}

/// Local indices, in order, of those of `indices` that lie in store `si`.
pub open spec fn locals_in(
    map: Seq<(usize, usize)>,
    indices: Seq<usize>,
    si: int,
) -> Seq<usize>
    decreases indices.len(),
{
    if indices.len() == 0 {
        Seq::empty()
    } else {
        let before = locals_in(map, indices.drop_last(), si);
        let g = indices.last() as int;
        if g < map.len() && map[g].0 == si {
            before.push(map[g].1)
        } else {
            before
        }
    }
}

impl TreeView {
    /// Where the task at a global index lies.
    pub open spec fn located(self, abs: int) -> Option<(usize, usize)> {
        if 0 <= abs < slots(self.stores).len() {
            Some(slots(self.stores)[abs])
        } else {
            None
        }
    }

    /// The file for new tasks.
    pub open spec fn root_todo(self) -> Seq<Seq<char>> {
        self.root.push("todo.md"@)
    }

    /// The store over the root's own file, or the first store.
    pub open spec fn root_index(self) -> int {
        match store_over(self.stores, self.root_todo(), 0) {
            Some(i) => i,
            None => 0,
        }
    }

    /// The tree with one store replaced.
    pub open spec fn with_store(self, si: int, s: StoreView) -> TreeView {
        TreeView { stores: self.stores.update(si, s), ..self }
    }

    /// The tree with a change of store `si` remembered, if there was one.
    pub open spec fn noted(self, si: int, changed: bool) -> TreeView {
        if changed {
            TreeView { undo_order: self.undo_order.push(si as usize), ..self }
        } else {
            self
        }
    }

    /// Some store has another day than `today`.
    pub open spec fn on_another_day(self, today: Seq<char>) -> bool {
        exists|i: int| 0 <= i < self.stores.len() && (#[trigger] self.stores[i]).today != today
    }

    /// The tree with the current day taken over.
    pub open spec fn on_day(self, today: Seq<char>) -> TreeView {
        TreeView {
            stores: Seq::new(
                self.stores.len(),
                |i: int| StoreView { today, ..self.stores[i] },
            ),
            today: if self.on_another_day(today) {
                today
            } else {
                self.today
            },
            ..self
        }
    }

    /// The directory of a task's file, below the root.
    pub open spec fn area_of(self, abs: int) -> Seq<Seq<char>> {
        match self.located(abs) {
            Some((si, _)) => match path::parent_of(self.stores[si as int].file.path) {
                Some(dir) => path::relative_to(dir, self.root),
                None => Seq::empty(),
            },
            None => Seq::empty(),
        }
    }
}

/// Every task has a place and a line.
pub proof fn lemma_slots_len(stores: Seq<StoreView>)
    ensures
        slots(stores).len() == flat_lines(stores).len(),
    decreases stores.len(),
{
    if stores.len() > 0 {
        lemma_slots_len(stores.drop_last());
    }
}

/// Every entry of the flat list is a task of its store, and the line at that
/// place.
pub proof fn flat_list_mirrors_the_stores(stores: Seq<StoreView>, i: int)
    requires
        stores.len() <= usize::MAX,
        forall|k: int| 0 <= k < stores.len() ==> (#[trigger] stores[k]).lines.len() <= usize::MAX,
        0 <= i < slots(stores).len(),
    ensures
        slots(stores).len() == flat_lines(stores).len(),
        slots(stores)[i].0 < stores.len(),
        slots(stores)[i].1 < stores[slots(stores)[i].0 as int].lines.len(),
        flat_lines(stores)[i] == stores[slots(stores)[i].0 as int].lines[slots(
            stores,
        )[i].1 as int],
    decreases stores.len(),
{
    lemma_slots_len(stores);
    let before = stores.drop_last();
    lemma_slots_len(before);
    assert(stores[stores.len() - 1].lines.len() <= usize::MAX);
    if i < slots(before).len() {
        assert forall|k: int| 0 <= k < before.len() implies (#[trigger] before[k]).lines.len()
            <= usize::MAX by {
            assert(before[k] == stores[k]);
        }
        flat_list_mirrors_the_stores(before, i);
        assert(slots(stores)[i] == slots(before)[i]);
        assert(flat_lines(stores)[i] == flat_lines(before)[i]);
    } else {
        let j = i - slots(before).len();
        assert(slots(stores)[i] == ((stores.len() - 1) as usize, j as usize));
        assert(flat_lines(stores)[i] == stores.last().lines[j]);
    }
}

/// Where a store's tasks start in the flat list.
pub open spec fn start_of(stores: Seq<StoreView>, si: int) -> int {
    flat_lines(stores.take(si)).len() as int
}

/// Every task of every store stands in the flat list, at one place.
pub proof fn every_task_is_listed_once(stores: Seq<StoreView>, si: int, li: int)
    requires
        stores.len() <= usize::MAX,
        0 <= si < stores.len(),
        0 <= li < stores[si].lines.len() <= usize::MAX,
        forall|k: int| 0 <= k < stores.len() ==> (#[trigger] stores[k]).lines.len() <= usize::MAX,
    ensures
        0 <= start_of(stores, si) + li < slots(stores).len(),
        slots(stores)[start_of(stores, si) + li] == (si as usize, li as usize),
        forall|i: int|
            0 <= i < slots(stores).len() && #[trigger] slots(stores)[i] == (si as usize, li as usize)
                ==> i == start_of(stores, si) + li,
    decreases stores.len(),
{
    let before = stores.drop_last();
    let n = stores.len() - 1;
    lemma_slots_len(before);
    lemma_slots_len(stores);
    let at = start_of(stores, si) + li;
    if si < n {
        assert(before[si] == stores[si]);
        assert forall|k: int| 0 <= k < before.len() implies (#[trigger] before[k]).lines.len()
            <= usize::MAX by {
            assert(before[k] == stores[k]);
        }
        every_task_is_listed_once(before, si, li);
        assert(before.take(si) =~= stores.take(si));
        assert(slots(stores)[at] == slots(before)[at]);
        assert forall|i: int|
            0 <= i < slots(stores).len() && #[trigger] slots(stores)[i] == (
                si as usize,
                li as usize,
            ) implies i == at by {
            if i < slots(before).len() {
                assert(slots(stores)[i] == slots(before)[i]);
            } else {
                assert(slots(stores)[i].0 == n as usize);
            }
        }
    } else {
        assert(stores.take(si) =~= before);
        assert(slots(stores)[at] == (n as usize, li as usize));
        assert forall|i: int|
            0 <= i < slots(stores).len() && #[trigger] slots(stores)[i] == (
                si as usize,
                li as usize,
            ) implies i == at by {
            if i < slots(before).len() {
                assert forall|k: int|
                    0 <= k < before.len() implies (#[trigger] before[k]).lines.len()
                    <= usize::MAX by {
                    assert(before[k] == stores[k]);
                }
                flat_list_mirrors_the_stores(before, i);
                assert(slots(stores)[i] == slots(before)[i]);
            } else {
                let j = i - slots(before).len();
                assert(slots(stores)[i] == (n as usize, j as usize));
                assert(j < stores.last().lines.len());
            }
        }
    }
}

impl TreeStore {
    /// The stores, apart from the flat list.
    spec fn base_ok(&self) -> bool {
        &&& self.stores@.len() > 0
        &&& forall|i: int| 0 <= i < self.stores@.len() ==> (#[trigger] self.stores@[i]).wf()
        &&& forall|k: int|
            0 <= k < self.undo_order@.len() ==> (#[trigger] self.undo_order@[k])
                < self.stores@.len()
    }

    /// The flat list is that of the stores.
    spec fn flat_ok(&self) -> bool {
        &&& self.map@ == slots(views(self.stores@))
        &&& self.agg@.len() == self.map@.len()
        &&& forall|i: int|
            0 <= i < self.map@.len() ==> {
                let (si, li) = #[trigger] self.map@[i];
                &&& si < self.stores@.len()
                &&& li < self.stores@[si as int].task_list().len()
                &&& self.agg@[i] == self.stores@[si as int].task_list()[li as int]
            }
    }

    /// There is a store, every store is well formed, remembered changes are
    /// changes of stores that exist, and the flat list is up to date.
    pub closed spec fn wf(&self) -> bool {
        self.base_ok() && self.flat_ok()
    }

    /// What a well-formed tree says of its model.
    pub proof fn wf_model(&self)
        requires
            self.wf(),
        ensures
            0 < self@.stores.len() <= usize::MAX,
            slots(self@.stores).len() <= usize::MAX,
            forall|i: int|
                0 <= i < self@.stores.len() ==> (#[trigger] self@.stores[i]).ok()
                    && self@.stores[i].lines.len() <= usize::MAX,
            forall|k: int|
                0 <= k < self@.undo_order.len() ==> (#[trigger] self@.undo_order[k])
                    < self@.stores.len(),
    {
        assert(self.stores@.len() == self.stores.len());
        assert(self.map@.len() == self.map.len());
        assert forall|i: int| 0 <= i < self@.stores.len() implies (#[trigger] self@.stores[i]).ok()
            && self@.stores[i].lines.len() <= usize::MAX by {
            assert(self.stores@[i].wf());
            self.stores@[i].wf_lines();
            self.stores@[i].task_count_fits();
        }
    }

    fn rebuild(&mut self)
        requires
            old(self).base_ok(),
        ensures
            final(self).wf(),
            final(self)@ == old(self)@,
    {
        self.agg.clear();
        self.map.clear();
        let mut si: usize = 0;
        let ghost all = views(self.stores@);
        proof {
            assert(all.take(0) =~= Seq::<StoreView>::empty());
        }
        while si < self.stores.len()
            invariant
                self.base_ok(),
                self.stores == old(self).stores,
                self.root == old(self).root,
                self.undo_order == old(self).undo_order,
                self.today == old(self).today,
                all == views(self.stores@),
                si <= self.stores.len(),
                self.map@ == slots(all.take(si as int)),
                self.agg@.len() == self.map@.len(),
                forall|i: int|
                    0 <= i < self.map@.len() ==> {
                        let (a, b) = #[trigger] self.map@[i];
                        &&& a < self.stores@.len()
                        &&& b < self.stores@[a as int].task_list().len()
                        &&& self.agg@[i] == self.stores@[a as int].task_list()[b as int]
                    },
            decreases self.stores.len() - si,
        {
            let ghost part = all.take(si + 1);
            let ghost mapped = self.map@;
            proof {
                assert(part.drop_last() =~= all.take(si as int));
                assert(part.last() == self.stores@[si as int]@);
                assert(self.stores@[si as int].wf());
                self.stores@[si as int].wf_lines();
            }
            let mut li: usize = 0;
            while li < self.stores[si].tasks().len()
                invariant
                    self.base_ok(),
                    self.stores == old(self).stores,
                    self.root == old(self).root,
                    self.undo_order == old(self).undo_order,
                    self.today == old(self).today,
                    si < self.stores.len(),
                    li <= self.stores@[si as int].task_list().len(),
                    self.map@ == mapped + Seq::new(
                        li as nat,
                        |j: int| (si, j as usize),
                    ),
                    self.agg@.len() == self.map@.len(),
                    forall|i: int|
                        0 <= i < self.map@.len() ==> {
                            let (a, b) = #[trigger] self.map@[i];
                            &&& a < self.stores@.len()
                            &&& b < self.stores@[a as int].task_list().len()
                            &&& self.agg@[i] == self.stores@[a as int].task_list()[b as int]
                        },
                decreases self.stores@[si as int].task_list().len() - li,
            {
                let task: Task = self.stores[si].tasks()[li].clone();
                self.agg.push(task);
                self.map.push((si, li));
                proof {
                    assert(self.map@ =~= mapped + Seq::new(
                        (li + 1) as nat,
                        |j: int| (si, j as usize),
                    ));
                }
                li += 1;
            }
            proof {
                assert(self.stores@[si as int].task_list().len() == part.last().lines.len());
                assert(self.map@ =~= slots(part));
            }
            si += 1;
        }
        proof {
            assert(all.take(all.len() as int) =~= all);
        }
    }

    /// A tree over the task files found below `root`, ordered by path; a
    /// store over `root`'s own file is put first when it is not among them.
    pub fn open(root: TreePath, found: Vec<LoadedFile>, root_body: String, today: String) -> (r:
        TreeStore)
        ensures
            r.wf(),
            r@.root == root@,
            r@.today == today@,
            r@.undo_order.len() == 0,
            exists|by_path: Seq<usize>| #[trigger]
                is_by_path(by_path, found@) && r@.stores == opened_stores(
                    root@,
                    found@,
                    by_path,
                    root_body@,
                    today@,
                ),
    {
        let root_todo: TreePath = root.join("todo.md");
        let mut keep: Vec<bool> = Vec::new();
        let mut present: bool = false;
        let mut i: usize = 0;
        while i < found.len()
            invariant
                i <= found.len(),
                keep@.len() == i,
                forall|k: int| 0 <= k < i ==> #[trigger] keep@[k],
                root_todo@ == root@.push("todo.md"@),
                present == (exists|k: int| 0 <= k < i && (#[trigger] found@[k]).path@ == root_todo@),
            decreases found.len() - i,
        {
            if found[i].path.same(&root_todo) {
                present = true;
            }
            keep.push(true);
            i += 1;
        }
        let by_path: Vec<usize> = listing(&keep, &found);
        proof {
            assert(keep@ =~= Seq::new(found@.len(), |k: int| true));
        }
        let mut stores: Vec<Store> = Vec::new();
        let ghost first = if present {
            Seq::<StoreView>::empty()
        } else {
            seq![fresh_store(root_todo@, root_body@, today@)]
        };
        if !present {
            stores.push(Store::new(root_todo, root_body, today.clone()));
        }
        proof {
            assert(views(stores@) =~= first + fresh_stores(
                found@,
                by_path@.take(0),
                today@,
            ));
        }
        let mut p: usize = 0;
        while p < by_path.len()
            invariant
                p <= by_path.len(),
                forall|k: int| 0 <= k < by_path@.len() ==> (#[trigger] by_path@[k]) < found@.len(),
                forall|k: int| 0 <= k < stores@.len() ==> (#[trigger] stores@[k]).wf(),
                views(stores@) == first + fresh_stores(found@, by_path@.take(p as int), today@),
            decreases by_path.len() - p,
        {
            let at: usize = by_path[p];
            let s: Store = Store::new(
                found[at].path.clone(),
                found[at].body.clone(),
                today.clone(),
            );
            let ghost before = views(stores@);
            stores.push(s);
            proof {
                let now = by_path@.take(p as int);
                let next = by_path@.take(p + 1);
                assert(next =~= now.push(at));
                assert(fresh_stores(found@, next, today@) =~= fresh_stores(
                    found@,
                    now,
                    today@,
                ).push(s@));
                assert(views(stores@) =~= before.push(s@));
                assert(views(stores@) =~= first + fresh_stores(found@, next, today@));
            }
            p += 1;
        }
        proof {
            assert(by_path@.take(by_path@.len() as int) =~= by_path@);
            if present {
                let k = choose|k: int|
                    0 <= k < found@.len() && (#[trigger] found@[k]).path@ == root@.push("todo.md"@);
                assert(keep@[k]);
                let q = choose|q: int| 0 <= q < by_path@.len() && by_path@[q] == k;
                assert(fresh_stores(found@, by_path@, today@).len() > 0);
            }
            assert(views(stores@).len() == stores@.len());
        }
        let mut ts = TreeStore {
            root,
            stores,
            agg: Vec::new(),
            map: Vec::new(),
            undo_order: Vec::new(),
            today,
        };
        ts.rebuild();
        proof {
            assert(is_by_path(by_path@, found@));
            assert(ts@.stores =~= opened_stores(root@, found@, by_path@, root_body@, today@));
        }
        ts
    }

    fn single(root: TreePath, store: Store, today: String) -> (r: TreeStore)
        requires
            store.wf(),
        ensures
            r.wf(),
            r@ == (TreeView {
                root: root@,
                stores: seq![store@],
                undo_order: Seq::empty(),
                today: today@,
            }),
    {
        let mut stores: Vec<Store> = Vec::new();
        stores.push(store);
        let mut ts = TreeStore {
            root,
            stores,
            agg: Vec::new(),
            map: Vec::new(),
            undo_order: Vec::new(),
            today,
        };
        ts.rebuild();
        proof {
            assert(ts@.stores =~= seq![store@]);
            assert(ts@ =~= TreeView {
                root: root@,
                stores: seq![store@],
                undo_order: Seq::empty(),
                today: today@,
            });
        }
        ts
    }

    /// Single-file mode: a tree over one task file.
    pub fn open_file(file: TreePath, body: String, today: String) -> (r: TreeStore)
        ensures
            r.wf(),
            r@ == (TreeView {
                root: dir_of(file@),
                stores: seq![fresh_store(file@, body@, today@)],
                undo_order: Seq::empty(),
                today: today@,
            }),
    {
        let root: TreePath = match file.parent() {
            Some(dir) => dir,
            None => TreePath::new(),
        };
        let store: Store = Store::new(file, body, today.clone());
        TreeStore::single(root, store, today)
    }

    /// Single-file mode with an archive at a given path.
    pub fn open_file_with_done(
        file: TreePath,
        done_path: TreePath,
        body: String,
        today: String,
    ) -> (r: TreeStore)
        ensures
            r.wf(),
            r@ == (TreeView {
                root: dir_of(file@),
                stores: seq![
                    StoreView::fresh(
                        file@,
                        done_path@,
                        store::sibling_of(file@, "inbox.md"@),
                        body@,
                        today@,
                    ),
                ],
                undo_order: Seq::empty(),
                today: today@,
            }),
    {
        let root: TreePath = match file.parent() {
            Some(dir) => dir,
            None => TreePath::new(),
        };
        let store: Store = Store::new_with_done(file, done_path, body, today.clone());
        TreeStore::single(root, store, today)
    }

    /// Whether there is exactly one file.
    pub fn is_single_file(&self) -> (r: bool)
        ensures
            r == (self@.stores.len() == 1),
    {
        self.stores.len() == 1
    }

    /// Replace the primary file's archive.
    pub fn set_primary_archive(&mut self, archive: Archive)
        requires
            old(self).wf(),
            archive.wf(),
        ensures
            final(self).wf(),
            final(self)@ == old(self)@.with_store(
                old(self)@.root_index(),
                StoreView {
                    archive: archive@,
                    ..old(self)@.stores[old(self)@.root_index()]
                },
            ),
    {
        let si: usize = self.root_store();
        self.stores[si].set_archive(archive);
        proof {
            self.lemma_same_tasks(old(self), si as int);
        }
    }

    /// Changing a store but not its tasks leaves the flat list valid.
    proof fn lemma_same_tasks(&self, before: &TreeStore, si: int)
        requires
            before.wf(),
            0 <= si < before.stores@.len(),
            self.root == before.root,
            self.agg == before.agg,
            self.map == before.map,
            self.undo_order == before.undo_order,
            self.today == before.today,
            self.stores@ == before.stores@.update(si, self.stores@[si]),
            self.stores@[si].wf(),
            self.stores@[si].task_list() == before.stores@[si].task_list(),
        ensures
            self.wf(),
            self@ == before@.with_store(si, self.stores@[si]@),
    {
        assert(self@ =~= before@.with_store(si, self.stores@[si]@));
        assert forall|i: int| 0 <= i < self.stores@.len() implies (#[trigger] self.stores@[i]).wf() by {
            if i != si {
                assert(self.stores@[i] == before.stores@[i]);
            }
        }
        before.stores@[si].wf_lines();
        self.stores@[si].wf_lines();
        let a = views(before.stores@);
        let b = views(self.stores@);
        assert(a.len() == b.len());
        assert forall|i: int| 0 <= i < a.len() implies (#[trigger] a[i]).lines.len()
            == b[i].lines.len() by {
            if i != si {
                assert(self.stores@[i] == before.stores@[i]);
            }
        }
        lemma_slots_by_length(a, b);
    }

    pub fn root(&self) -> (r: &TreePath)
        ensures
            r@ == self@.root,
    {
        &self.root
    }

    /// The tasks of all files as one flat list.
    pub fn tasks(&self) -> (r: &[Task])
        requires
            self.wf(),
        ensures
            todo::tasks_wf(r@),
            todo::raws(r@) == flat_lines(self@.stores),
    {
        proof {
            self.lemma_flat();
        }
        self.agg.as_slice()
    }

    proof fn lemma_flat(&self)
        requires
            self.wf(),
        ensures
            todo::tasks_wf(self.agg@),
            todo::raws(self.agg@) == flat_lines(self@.stores),
            self.agg@.len() == slots(self@.stores).len(),
    {
        self.wf_model();
        let all = self@.stores;
        lemma_slots_len(all);
        assert forall|i: int| 0 <= i < self.agg@.len() implies (#[trigger] self.agg@[i]).wf()
            && self.agg@[i].raw@ == flat_lines(all)[i] by {
            flat_list_mirrors_the_stores(all, i);
            let (si, li) = self.map@[i];
            let s = self.stores@[si as int];
            assert(s.wf());
            s.wf_lines();
            assert(s.task_list()[li as int].wf());
            assert(todo::raws(s.task_list())[li as int] == s.task_list()[li as int].raw@);
        }
        assert(todo::raws(self.agg@) =~= flat_lines(all));
    }

    /// Source file of the task at `abs`.
    pub fn source(&self, abs: usize) -> (r: Option<&TreePath>)
        requires
            self.wf(),
        ensures
            match r {
                Some(p) => self@.located(abs as int) matches Some((si, _))
                    && p@ == self@.stores[si as int].file.path,
                None => self@.located(abs as int) is None,
            },
    {
        if abs < self.map.len() {
            let (si, _li) = self.map[abs];
            Some(self.stores[si].file_path())
        } else {
            None
        }
    }

    /// Directory of the source file below the root (the task's "area"); empty
    /// for the root's own file.
    pub fn area(&self, abs: usize) -> (r: TreePath)
        requires
            self.wf(),
        ensures
            r@ == self@.area_of(abs as int),
    {
        match self.source(abs) {
            Some(file) => match file.parent() {
                Some(dir) => dir.below(&self.root),
                None => TreePath::new(),
            },
            None => TreePath::new(),
        }
    }

    pub fn today(&self) -> (r: &str)
        ensures
            r@ == self@.today,
    {
        self.today.as_str()
    }

    /// Take over the current day in every store; tells whether it is another
    /// one for some of them.
    pub fn set_today(&mut self, today: String) -> (changed: bool)
        requires
            old(self).wf(),
        ensures
            final(self).wf(),
            changed == old(self)@.on_another_day(today@),
            final(self)@ == old(self)@.on_day(today@),
    {
        let mut changed: bool = false;
        let mut i: usize = 0;
        let ghost before = *self;
        while i < self.stores.len()
            invariant
                before.wf(),
                before == *old(self),
                i <= self.stores.len(),
                self.stores@.len() == before.stores@.len(),
                self.root == before.root,
                self.agg == before.agg,
                self.map == before.map,
                self.undo_order == before.undo_order,
                self.today == before.today,
                forall|k: int| 0 <= k < self.stores@.len() ==> (#[trigger] self.stores@[k]).wf(),
                forall|k: int|
                    0 <= k < self.stores@.len() ==> (#[trigger] self.stores@[k]).task_list()
                        == before.stores@[k].task_list(),
                forall|k: int|
                    0 <= k < i ==> (#[trigger] self.stores@[k])@ == (StoreView {
                        today: today@,
                        ..before.stores@[k]@
                    }),
                forall|k: int|
                    i <= k < self.stores@.len() ==> (#[trigger] self.stores@[k])
                        == before.stores@[k],
                changed == (exists|k: int|
                    0 <= k < i && (#[trigger] before@.stores[k]).today != today@),
            decreases self.stores.len() - i,
        {
            proof {
                assert(before@.stores[i as int] == before.stores@[i as int]@);
                assert(self.stores@[i as int] == before.stores@[i as int]);
            }
            let other: bool = self.stores[i].set_today(today.clone());
            if other {
                changed = true;
            }
            i += 1;
        }
        if changed {
            self.today = today;
        }
        proof {
            assert(self@ =~= before@.on_day(today@));
            let a = views(before.stores@);
            let b = views(self.stores@);
            assert forall|k: int| 0 <= k < a.len() implies (#[trigger] a[k]).lines.len()
                == b[k].lines.len() by {
                assert(self.stores@[k]@ == (StoreView { today: today@, ..before.stores@[k]@ }));
            }
            lemma_slots_by_length(a, b);
            assert forall|p: int| 0 <= p < self.map@.len() implies ({
                let (si, li) = #[trigger] self.map@[p];
                &&& si < self.stores@.len()
                &&& li < self.stores@[si as int].task_list().len()
                &&& self.agg@[p] == self.stores@[si as int].task_list()[li as int]
            }) by {
                let (si, li) = before.map@[p];
                assert(self.stores@[si as int].task_list()
                    == before.stores@[si as int].task_list());
            }
        }
        changed
    }

    /// Whether some task is completed.
    pub fn has_completed(&self) -> (r: bool)
        requires
            self.wf(),
        ensures
            r == (exists|i: int|
                0 <= i < flat_lines(self@.stores).len() && crate::line::parts_of(
                    #[trigger] flat_lines(self@.stores)[i],
                ).done),
    {
        proof {
            self.lemma_flat();
        }
        let mut i: usize = 0;
        while i < self.agg.len()
            invariant
                i <= self.agg.len(),
                todo::tasks_wf(self.agg@),
                todo::raws(self.agg@) == flat_lines(self@.stores),
                forall|k: int|
                    0 <= k < i ==> !crate::line::parts_of(
                        #[trigger] flat_lines(self@.stores)[k],
                    ).done,
            decreases self.agg.len() - i,
        {
            proof {
                assert(self.agg@[i as int].wf());
                assert(todo::raws(self.agg@)[i as int] == self.agg@[i as int].raw@);
            }
            if self.agg[i].done {
                return true;
            }
            i += 1;
        }
        false
    }

    /// The line of the task at `abs`.
    pub fn task_raw(&self, abs: usize) -> (r: Option<String>)
        requires
            self.wf(),
        ensures
            todo::opt_text(r) == (if abs < flat_lines(self@.stores).len() {
                Some(flat_lines(self@.stores)[abs as int])
            } else {
                None
            }),
    {
        proof {
            self.lemma_flat();
        }
        if abs < self.agg.len() {
            proof {
                assert(todo::raws(self.agg@)[abs as int] == self.agg@[abs as int].raw@);
            }
            Some(self.agg[abs].raw.clone())
        } else {
            proof {
                assert(todo::raws(self.agg@).len() == self.agg@.len());
            }
            None
        }
    }

    /// Complete the task at `abs`, or open it again, in its own file.
    pub fn toggle_complete(&mut self, abs: usize) -> (r: CompleteOutcome)
        requires
            old(self).wf(),
        ensures
            final(self).wf(),
            (final(self)@, r) == old(self)@.toggle_at(abs as int),
    {
        let (si, li) = match self.locate(abs) {
            Some(at) => at,
            None => {
                return CompleteOutcome::OutOfRange;
            },
        };
        let out: CompleteOutcome = self.stores[si].toggle_complete(li);
        proof {
            assert(views(self.stores@) =~= old(self)@.stores.update(si as int, self.stores@[si as int]@));
        }
        let changed: bool = match out {
            CompleteOutcome::Completed { .. } | CompleteOutcome::Reopened => true,
            _ => false,
        };
        self.note_mutation(si, changed);
        self.rebuild();
        out
    }

    /// Give the task at `abs` the next priority.
    pub fn cycle_priority(&mut self, abs: usize) -> (r: PriorityOutcome)
        requires
            old(self).wf(),
        ensures
            final(self).wf(),
            (final(self)@, r) == old(self)@.prioritize_at(abs as int),
    {
        let (si, li) = match self.locate(abs) {
            Some(at) => at,
            None => {
                return PriorityOutcome::OutOfRange;
            },
        };
        let out: PriorityOutcome = self.stores[si].cycle_priority(li);
        proof {
            assert(views(self.stores@) =~= old(self)@.stores.update(si as int, self.stores@[si as int]@));
        }
        let changed: bool = match out {
            PriorityOutcome::Changed { .. } => true,
            _ => false,
        };
        self.note_mutation(si, changed);
        self.rebuild();
        out
    }

    /// Delete the task at `abs` from its own file.
    pub fn delete(&mut self, abs: usize) -> (r: DeleteOutcome)
        requires
            old(self).wf(),
        ensures
            final(self).wf(),
            (final(self)@, r) == old(self)@.remove_at(abs as int),
    {
        let (si, li) = match self.locate(abs) {
            Some(at) => at,
            None => {
                return DeleteOutcome::OutOfRange;
            },
        };
        let out: DeleteOutcome = self.stores[si].delete(li);
        proof {
            assert(views(self.stores@) =~= old(self)@.stores.update(si as int, self.stores@[si as int]@));
        }
        let changed: bool = match out {
            DeleteOutcome::Deleted => true,
            _ => false,
        };
        self.note_mutation(si, changed);
        self.rebuild();
        out
    }

    /// Put a new text in place of the line at `abs`.
    pub fn edit_line(&mut self, abs: usize, text: &str) -> (r: EditOutcome)
        requires
            old(self).wf(),
        ensures
            final(self).wf(),
            (final(self)@, r) == old(self)@.edit_at(abs as int, text@),
    {
        let (si, li) = match self.locate(abs) {
            Some(at) => at,
            None => {
                return EditOutcome::OutOfRange;
            },
        };
        let out: EditOutcome = self.stores[si].edit_line(li, text);
        proof {
            assert(views(self.stores@) =~= old(self)@.stores.update(si as int, self.stores@[si as int]@));
        }
        let changed: bool = match out {
            EditOutcome::Edited => true,
            _ => false,
        };
        self.note_mutation(si, changed);
        self.rebuild();
        out
    }

    /// Tag the task at `abs` with a project.
    pub fn add_project(&mut self, abs: usize, name: &str) -> (r: TagOutcome)
        requires
            old(self).wf(),
        ensures
            final(self).wf(),
            (final(self)@, r) == old(self)@.retag_at(abs as int, '+', name@, false),
    {
        let (si, li) = match self.locate(abs) {
            Some(at) => at,
            None => {
                return TagOutcome::OutOfRange;
            },
        };
        let out: TagOutcome = self.stores[si].add_project(li, name);
        proof {
            assert(views(self.stores@) =~= old(self)@.stores.update(si as int, self.stores@[si as int]@));
        }
        let changed: bool = match out {
            TagOutcome::Added | TagOutcome::Removed => true,
            _ => false,
        };
        self.note_mutation(si, changed);
        self.rebuild();
        out
    }

    /// Tag the task at `abs` with a context, or take the tag away.
    pub fn toggle_context(&mut self, abs: usize, name: &str) -> (r: TagOutcome)
        requires
            old(self).wf(),
        ensures
            final(self).wf(),
            (final(self)@, r) == old(self)@.retag_at(abs as int, '@', name@, true),
    {
        let (si, li) = match self.locate(abs) {
            Some(at) => at,
            None => {
                return TagOutcome::OutOfRange;
            },
        };
        let out: TagOutcome = self.stores[si].toggle_context(li, name);
        proof {
            assert(views(self.stores@) =~= old(self)@.stores.update(si as int, self.stores@[si as int]@));
        }
        let changed: bool = match out {
            TagOutcome::Added | TagOutcome::Removed => true,
            _ => false,
        };
        self.note_mutation(si, changed);
        self.rebuild();
        out
    }

    /// Add a new task to the root's own file.
    pub fn add_finalized(&mut self, text: &str) -> (r: AddOutcome)
        requires
            old(self).wf(),
        ensures
            final(self).wf(),
            (final(self)@, r) == old(self)@.add_task(text@),
    {
        let si: usize = self.root_store();
        let out: AddOutcome = self.stores[si].add_finalized(text);
        proof {
            assert(views(self.stores@) =~= old(self)@.stores.update(
                si as int,
                self.stores@[si as int]@,
            ));
        }
        let changed: bool = match out {
            AddOutcome::Added => true,
            _ => false,
        };
        self.note_mutation(si, changed);
        self.rebuild();
        out
    }

    fn locate(&mut self, abs: usize) -> (r: Option<(usize, usize)>)
        requires
            old(self).wf(),
        ensures
            *final(self) == *old(self),
            r == old(self)@.located(abs as int),
            r matches Some((si, _)) ==> si < old(self).stores@.len(),
    {
        if abs < self.map.len() {
            Some(self.map[abs])
        } else {
            None
        }
    }

    /// Remember a change of store `si` for undo, if there was one.
    fn note_mutation(&mut self, si: usize, changed: bool)
        requires
            old(self).base_ok(),
            si < old(self).stores@.len(),
        ensures
            final(self).base_ok(),
            final(self)@ == old(self)@.noted(si as int, changed),
    {
        if changed {
            self.undo_order.push(si);
        }
        proof {
            assert(self@ =~= old(self)@.noted(si as int, changed));
        }
    }

    /// Index of the store over the root's own file.
    fn root_store(&self) -> (r: usize)
        requires
            self.base_ok(),
        ensures
            r == self@.root_index(),
            r < self.stores@.len(),
    {
        let root_todo: TreePath = self.root.join("todo.md");
        let mut i: usize = 0;
        while i < self.stores.len()
            invariant
                i <= self.stores.len(),
                root_todo@ == self@.root_todo(),
                self@.stores == views(self.stores@),
                store_over(self@.stores, root_todo@, 0) == store_over(
                    self@.stores,
                    root_todo@,
                    i as int,
                ),
            decreases self.stores.len() - i,
        {
            if self.stores[i].file_path().same(&root_todo) {
                return i;
            }
            i += 1;
        }
        0
    }
}

/// `by_path` orders the files by path.
pub open spec fn is_by_path(by_path: Seq<usize>, found: Seq<LoadedFile>) -> bool {
    order::is_listing(by_path, Seq::new(found.len(), |i: int| true), found)
}

/// A new store with its archive and inbox beside the file.
pub open spec fn fresh_store(file: Seq<Seq<char>>, body: Seq<char>, today: Seq<char>) -> StoreView {
    StoreView::fresh(
        file,
        store::sibling_of(file, "done.md"@),
        store::sibling_of(file, "inbox.md"@),
        body,
        today,
    )
}

/// New stores over files, in the given order.
pub open spec fn fresh_stores(
    found: Seq<LoadedFile>,
    by_path: Seq<usize>,
    today: Seq<char>,
) -> Seq<StoreView> {
    Seq::new(
        by_path.len(),
        |p: int|
            fresh_store(
                found[by_path[p] as int].path@,
                found[by_path[p] as int].body@,
                today,
            ),
    )
}

/// The stores of a newly opened tree.
pub open spec fn opened_stores(
    root: Seq<Seq<char>>,
    found: Seq<LoadedFile>,
    by_path: Seq<usize>,
    root_body: Seq<char>,
    today: Seq<char>,
) -> Seq<StoreView> {
    let root_todo = root.push("todo.md"@);
    let rest = fresh_stores(found, by_path, today);
    if exists|k: int| 0 <= k < found.len() && (#[trigger] found[k]).path@ == root_todo {
        rest
    } else {
        seq![fresh_store(root_todo, root_body, today)] + rest
    }
}

/// The directory that holds a file.
pub open spec fn dir_of(file: Seq<Seq<char>>) -> Seq<Seq<char>> {
    match path::parent_of(file) {
        Some(dir) => dir,
        None => Seq::empty(),
    }
}

proof fn lemma_slots_by_length(a: Seq<StoreView>, b: Seq<StoreView>)
    requires
        a.len() == b.len(),
        forall|i: int| 0 <= i < a.len() ==> (#[trigger] a[i]).lines.len() == b[i].lines.len(),
    ensures
        slots(a) == slots(b),
    decreases a.len(),
{
    if a.len() > 0 {
        let c = a.drop_last();
        let d = b.drop_last();
        assert forall|i: int| 0 <= i < c.len() implies (#[trigger] c[i]).lines.len()
            == d[i].lines.len() by {
            assert(c[i] == a[i]);
        }
        lemma_slots_by_length(c, d);
        assert(a[a.len() - 1].lines.len() == b[b.len() - 1].lines.len());
    }
    assert(slots(a) =~= slots(b));
}

/// A bulk completion after some of the stores.
#[verifier::ext_equal]
pub struct BulkComplete {
    pub tree: TreeView,
    pub completed: int,
    pub spawned: int,
    pub aborted: Option<Reconcile>,
    pub error: Option<StoreError>,
}

/// A bulk deletion after some of the stores.
#[verifier::ext_equal]
pub struct BulkDelete {
    pub tree: TreeView,
    pub deleted: int,
    pub aborted: Option<Reconcile>,
    pub error: Option<StoreError>,
}

/// Archiving after some of the stores; `stop` is the outcome that ended it.
#[verifier::ext_equal]
pub struct ArchiveRun {
    pub tree: TreeView,
    pub total: int,
    pub stop: Option<ArchiveOutcome>,
}

impl TreeView {
    /// The task at `abs` completed, or opened again, in its own file.
    pub open spec fn toggle_at(self, abs: int) -> (TreeView, CompleteOutcome) {
        match self.located(abs) {
            None => (self, CompleteOutcome::OutOfRange),
            Some((si, li)) => {
                let (store, out) = self.stores[si as int].toggle(li as int);
                (self.with_store(si as int, store).noted(si as int, out is Completed || out is Reopened), out)
            },
        }
    }

    /// The task at `abs` with the next priority.
    pub open spec fn prioritize_at(self, abs: int) -> (TreeView, PriorityOutcome) {
        match self.located(abs) {
            None => (self, PriorityOutcome::OutOfRange),
            Some((si, li)) => {
                let (store, out) = self.stores[si as int].prioritize(li as int);
                (self.with_store(si as int, store).noted(si as int, out is Changed), out)
            },
        }
    }

    /// The task at `abs` deleted from its own file.
    pub open spec fn remove_at(self, abs: int) -> (TreeView, DeleteOutcome) {
        match self.located(abs) {
            None => (self, DeleteOutcome::OutOfRange),
            Some((si, li)) => {
                let (store, out) = self.stores[si as int].remove(li as int);
                (self.with_store(si as int, store).noted(si as int, out is Deleted), out)
            },
        }
    }

    /// A new text in place of the line at `abs`.
    pub open spec fn edit_at(self, abs: int, text: Seq<char>) -> (TreeView, EditOutcome) {
        match self.located(abs) {
            None => (self, EditOutcome::OutOfRange),
            Some((si, li)) => {
                let (store, out) = self.stores[si as int].edit(li as int, text);
                (self.with_store(si as int, store).noted(si as int, out is Edited), out)
            },
        }
    }

    /// The task at `abs` with a tag, or without it.
    pub open spec fn retag_at(self, abs: int, sign: char, name: Seq<char>, toggle: bool) -> (TreeView, TagOutcome) {
        match self.located(abs) {
            None => (self, TagOutcome::OutOfRange),
            Some((si, li)) => {
                let (store, out) = self.stores[si as int].retag(li as int, sign, name, toggle);
                (self.with_store(si as int, store).noted(si as int, out is Added || out is Removed), out)
            },
        }
    }

    /// A new task in the root's own file.
    pub open spec fn add_task(self, text: Seq<char>) -> (TreeView, AddOutcome) {
        let si = self.root_index();
        let (store, out) = self.stores[si].add(text);
        (self.with_store(si, store).noted(si, out is Added), out)
    }

    /// The local indices of those of `indices` that lie in store `si`.
    pub open spec fn group(self, indices: Seq<usize>, si: int) -> Seq<usize> {
        locals_in(slots(self.stores), indices, si)
    }

    /// Complete the tasks at `indices` that lie in the first `k` stores, store
    /// by store. An aborted store is passed over, an error ends the run.
    pub open spec fn completing(self, indices: Seq<usize>, k: nat) -> BulkComplete
        decreases k,
    {
        if k == 0 {
            BulkComplete { tree: self, completed: 0, spawned: 0, aborted: None, error: None }
        } else {
            let run = self.completing(indices, (k - 1) as nat);
            let si = k - 1;
            let locals = self.group(indices, si);
            if run.error is Some || locals.len() == 0 {
                run
            } else {
                let (changed, out) = run.tree.stores[si].complete_some(locals);
                let tree = run.tree.with_store(si, changed);
                match out {
                    BulkCompleteOutcome::Done { completed, spawned } => BulkComplete {
                        tree: tree.noted(si, true),
                        completed: run.completed + completed,
                        spawned: run.spawned + spawned,
                        ..run
                    },
                    BulkCompleteOutcome::NothingToComplete => BulkComplete { tree, ..run },
                    BulkCompleteOutcome::Aborted(r) => BulkComplete {
                        tree,
                        aborted: Some(r),
                        ..run
                    },
                    BulkCompleteOutcome::Error(e) => BulkComplete { tree, error: Some(e), ..run },
                }
            }
        }
    }

    /// Complete the tasks at `indices` in all stores.
    pub open spec fn complete_indices(self, indices: Seq<usize>) -> (
        TreeView,
        BulkCompleteOutcome,
    ) {
        let run = self.completing(indices, self.stores.len());
        if run.error is Some {
            (run.tree, BulkCompleteOutcome::Error(run.error->0))
        } else if run.aborted is Some {
            (run.tree, BulkCompleteOutcome::Aborted(run.aborted->0))
        } else if run.completed == 0 {
            (run.tree, BulkCompleteOutcome::NothingToComplete)
        } else {
            (
                run.tree,
                BulkCompleteOutcome::Done {
                    completed: run.completed as usize,
                    spawned: run.spawned as usize,
                },
            )
        }
    }

    /// Delete the tasks at `indices` that lie in the first `k` stores, store by
    /// store. An aborted store is passed over, an error ends the run.
    pub open spec fn deleting(self, indices: Seq<usize>, k: nat) -> BulkDelete
        decreases k,
    {
        if k == 0 {
            BulkDelete { tree: self, deleted: 0, aborted: None, error: None }
        } else {
            let run = self.deleting(indices, (k - 1) as nat);
            let si = k - 1;
            let locals = self.group(indices, si);
            if run.error is Some || locals.len() == 0 {
                run
            } else {
                let (changed, out) = run.tree.stores[si].remove_some(locals);
                let tree = run.tree.with_store(si, changed);
                match out {
                    BulkDeleteOutcome::Done { deleted } => BulkDelete {
                        tree: tree.noted(si, true),
                        deleted: run.deleted + deleted,
                        ..run
                    },
                    BulkDeleteOutcome::Nothing => BulkDelete { tree, ..run },
                    BulkDeleteOutcome::Aborted(r) => BulkDelete {
                        tree,
                        aborted: Some(r),
                        ..run
                    },
                    BulkDeleteOutcome::Error(e) => BulkDelete { tree, error: Some(e), ..run },
                }
            }
        }
    }

    /// Delete the tasks at `indices` in all stores.
    pub open spec fn delete_indices(self, indices: Seq<usize>) -> (TreeView, BulkDeleteOutcome) {
        let run = self.deleting(indices, self.stores.len());
        if run.error is Some {
            (run.tree, BulkDeleteOutcome::Error(run.error->0))
        } else if run.aborted is Some {
            (run.tree, BulkDeleteOutcome::Aborted(run.aborted->0))
        } else if run.deleted == 0 {
            (run.tree, BulkDeleteOutcome::Nothing)
        } else {
            (run.tree, BulkDeleteOutcome::Done { deleted: run.deleted as usize })
        }
    }

    /// Archive completed tasks in the first `k` stores. An aborted store or an
    /// error ends the run.
    pub open spec fn archiving(self, k: nat) -> ArchiveRun
        decreases k,
    {
        if k == 0 {
            ArchiveRun { tree: self, total: 0, stop: None }
        } else {
            let run = self.archiving((k - 1) as nat);
            let si = k - 1;
            if run.stop is Some {
                run
            } else {
                let (changed, out) = run.tree.stores[si].archive_done();
                let tree = run.tree.with_store(si, changed);
                match out {
                    ArchiveOutcome::Archived { count } => ArchiveRun {
                        tree,
                        total: run.total + count,
                        stop: None,
                    },
                    ArchiveOutcome::Nothing => ArchiveRun { tree, ..run },
                    _ => ArchiveRun { tree, stop: Some(out), ..run },
                }
            }
        }
    }

    /// Archive completed tasks in all stores.
    pub open spec fn archive_all(self) -> (TreeView, ArchiveOutcome) {
        let run = self.archiving(self.stores.len());
        if run.stop is Some {
            (run.tree, run.stop->0)
        } else if run.total == 0 {
            (run.tree, ArchiveOutcome::Nothing)
        } else {
            (run.tree, ArchiveOutcome::Archived { count: run.total as usize })
        }
    }

    /// The archived task `i` of the primary file put back into it.
    pub open spec fn restored(self, i: int) -> (TreeView, UnarchiveOutcome) {
        let si = self.root_index();
        let (changed, out) = self.stores[si].restore(i);
        (self.with_store(si, changed), out)
    }

    /// The archived task `i` of the primary file deleted.
    pub open spec fn archive_removed(self, i: int) -> (TreeView, ArchiveDeleteOutcome) {
        let si = self.root_index();
        let (changed, out) = self.stores[si].archive_remove(i);
        (self.with_store(si, changed), out)
    }

    /// The primary file's inbox moved into the file.
    pub open spec fn drained(self) -> (TreeView, DrainReport) {
        let si = self.root_index();
        let (changed, out) = self.stores[si].drain();
        (self.with_store(si, changed), out)
    }

    /// The primary file's archive as its file has it.
    pub open spec fn archive_polled(self) -> (TreeView, bool) {
        let si = self.root_index();
        let (changed, found) = self.stores[si].polled();
        (self.with_store(si, changed), found)
    }

    /// Undo the latest remembered change, in the store that it changed.
    pub open spec fn undone(self) -> (TreeView, UndoOutcome) {
        if self.undo_order.len() == 0 {
            (self, UndoOutcome::Nothing)
        } else {
            let si = self.undo_order.last() as int;
            let (changed, out) = self.stores[si].undone();
            (
                TreeView {
                    undo_order: self.undo_order.drop_last(),
                    ..self.with_store(si, changed)
                },
                out,
            )
        }
    }

    /// Reconcile every store with its file.
    pub open spec fn reconciled(self) -> (TreeView, Reconcile) {
        let found = if exists|i: int|
            0 <= i < self.stores.len() && (#[trigger] self.stores[i]).reconciled().1
                == Reconcile::Reloaded {
            Reconcile::Reloaded
        } else if exists|i: int|
            0 <= i < self.stores.len() && (#[trigger] self.stores[i]).reconciled().1
                == Reconcile::ReadError {
            Reconcile::ReadError
        } else {
            Reconcile::Unchanged
        };
        (
            TreeView {
                stores: Seq::new(self.stores.len(), |i: int| self.stores[i].reconciled().0),
                undo_order: if found == Reconcile::Unchanged {
                    self.undo_order
                } else {
                    Seq::empty()
                },
                ..self
            },
            found,
        )
    }
}

/// Lines in the first `k` stores.
pub open spec fn lines_before(stores: Seq<StoreView>, k: int) -> int {
    flat_lines(stores.take(k)).len() as int
}

proof fn lemma_lines_before(stores: Seq<StoreView>, k: int)
    requires
        0 <= k < stores.len(),
    ensures
        lines_before(stores, k + 1) == lines_before(stores, k) + stores[k].lines.len(),
        lines_before(stores, 0) == 0,
{
    assert(stores.take(k + 1).drop_last() =~= stores.take(k));
    assert(stores.take(k + 1).last() == stores[k]);
}

/// The first files hold no more lines than all of them.
pub proof fn lemma_lines_before_all(stores: Seq<StoreView>, k: int)
    requires
        0 <= k <= stores.len(),
    ensures
        0 <= lines_before(stores, k) <= slots(stores).len(),
    decreases stores.len() - k,
{
    lemma_slots_len(stores);
    if k < stores.len() {
        lemma_lines_before(stores, k);
        lemma_lines_before_all(stores, k + 1);
    } else {
        assert(stores.take(k) =~= stores);
    }
}

/// A bulk completion leaves the files after the first `k` alone, and counts no
/// more tasks than those hold.
pub proof fn lemma_completing(m: TreeView, indices: Seq<usize>, k: nat)
    requires
        k <= m.stores.len(),
        forall|i: int| 0 <= i < m.stores.len() ==> (#[trigger] m.stores[i]).lines.len() <= usize::MAX,
    ensures
        ({
            let run = m.completing(indices, k);
            &&& run.tree.stores.len() == m.stores.len()
            &&& forall|i: int|
                k <= i < m.stores.len() ==> (#[trigger] run.tree.stores[i]) == m.stores[i]
            &&& 0 <= run.spawned <= run.completed <= lines_before(m.stores, k as int)
        }),
    decreases k,
{
    if k > 0 {
        let si = k - 1;
        lemma_completing(m, indices, (k - 1) as nat);
        lemma_lines_before(m.stores, si);
        let run = m.completing(indices, (k - 1) as nat);
        assert(run.tree.stores[si] == m.stores[si]);
        assert(m.stores[si].lines.len() <= usize::MAX);
        store::bulk_counts_fit(m.stores[si], m.group(indices, si));
    }
}

/// A bulk deletion leaves the files after the first `k` alone, and counts no
/// more tasks than those hold.
pub proof fn lemma_deleting(m: TreeView, indices: Seq<usize>, k: nat)
    requires
        k <= m.stores.len(),
        forall|i: int| 0 <= i < m.stores.len() ==> (#[trigger] m.stores[i]).lines.len() <= usize::MAX,
    ensures
        ({
            let run = m.deleting(indices, k);
            &&& run.tree.stores.len() == m.stores.len()
            &&& forall|i: int|
                k <= i < m.stores.len() ==> (#[trigger] run.tree.stores[i]) == m.stores[i]
            &&& 0 <= run.deleted <= lines_before(m.stores, k as int)
        }),
    decreases k,
{
    if k > 0 {
        let si = k - 1;
        lemma_deleting(m, indices, (k - 1) as nat);
        lemma_lines_before(m.stores, si);
        let run = m.deleting(indices, (k - 1) as nat);
        assert(run.tree.stores[si] == m.stores[si]);
        assert(m.stores[si].lines.len() <= usize::MAX);
        store::bulk_counts_fit(m.stores[si], m.group(indices, si));
    }
}

/// Archiving leaves the files after the first `k` alone, and counts no more
/// tasks than those hold.
pub proof fn lemma_archiving(m: TreeView, k: nat)
    requires
        k <= m.stores.len(),
        forall|i: int| 0 <= i < m.stores.len() ==> (#[trigger] m.stores[i]).lines.len() <= usize::MAX,
    ensures
        ({
            let run = m.archiving(k);
            &&& run.tree.stores.len() == m.stores.len()
            &&& forall|i: int|
                k <= i < m.stores.len() ==> (#[trigger] run.tree.stores[i]) == m.stores[i]
            &&& 0 <= run.total <= lines_before(m.stores, k as int)
        }),
    decreases k,
{
    if k > 0 {
        let si = k - 1;
        lemma_archiving(m, (k - 1) as nat);
        lemma_lines_before(m.stores, si);
        let run = m.archiving((k - 1) as nat);
        assert(run.tree.stores[si] == m.stores[si]);
        assert(m.stores[si].lines.len() <= usize::MAX);
        store::archive_count_fits(m.stores[si]);
    }
}

proof fn lemma_completing_stopped(m: TreeView, indices: Seq<usize>, k: nat, n: nat)
    requires
        k <= n,
        m.completing(indices, k).error is Some,
    ensures
        m.completing(indices, n) == m.completing(indices, k),
    decreases n,
{
    if k < n {
        lemma_completing_stopped(m, indices, k, (n - 1) as nat);
    }
}

proof fn lemma_deleting_stopped(m: TreeView, indices: Seq<usize>, k: nat, n: nat)
    requires
        k <= n,
        m.deleting(indices, k).error is Some,
    ensures
        m.deleting(indices, n) == m.deleting(indices, k),
    decreases n,
{
    if k < n {
        lemma_deleting_stopped(m, indices, k, (n - 1) as nat);
    }
}

proof fn lemma_archiving_stopped(m: TreeView, k: nat, n: nat)
    requires
        k <= n,
        m.archiving(k).stop is Some,
    ensures
        m.archiving(n) == m.archiving(k),
    decreases n,
{
    if k < n {
        lemma_archiving_stopped(m, k, (n - 1) as nat);
    }
}

impl TreeStore {
    /// The local indices of those of `indices` that exist, store by store.
    fn group_by_store(&self, indices: &[usize]) -> (groups: Vec<Vec<usize>>)
        requires
            self.wf(),
        ensures
            groups@.len() == self@.stores.len(),
            forall|si: int|
                0 <= si < groups@.len() ==> (#[trigger] groups@[si])@ == self@.group(
                    indices@,
                    si,
                ),
    {
        let mut groups: Vec<Vec<usize>> = Vec::new();
        let mut si: usize = 0;
        while si < self.stores.len()
            invariant
                self.wf(),
                si <= self.stores.len(),
                groups@.len() == si,
                forall|k: int| 0 <= k < si ==> (#[trigger] groups@[k])@ == self@.group(indices@, k),
            decreases self.stores.len() - si,
        {
            let mut locals: Vec<usize> = Vec::new();
            let mut i: usize = 0;
            proof {
                assert(indices@.take(0) =~= Seq::<usize>::empty());
                assert(locals@ =~= locals_in(self.map@, indices@.take(0), si as int));
            }
            while i < indices.len()
                invariant
                    self.wf(),
                    si < self.stores.len(),
                    i <= indices.len(),
                    locals@ == locals_in(self.map@, indices@.take(i as int), si as int),
                decreases indices.len() - i,
            {
                let g: usize = indices[i];
                proof {
                    assert(indices@.take(i + 1).drop_last() =~= indices@.take(i as int));
                    assert(indices@.take(i + 1).last() == g);
                }
                if g < self.map.len() && self.map[g].0 == si {
                    locals.push(self.map[g].1);
                }
                i += 1;
            }
            proof {
                assert(indices@.take(indices@.len() as int) =~= indices@);
            }
            groups.push(locals);
            si += 1;
        }
        groups
    }

    /// Complete the tasks at `indices`, each in its own file.
    pub fn complete_many(&mut self, indices: &[usize]) -> (r: BulkCompleteOutcome)
        requires
            old(self).wf(),
        ensures
            final(self).wf(),
            (final(self)@, r) == old(self)@.complete_indices(indices@),
    {
        let groups: Vec<Vec<usize>> = self.group_by_store(indices);
        let mut completed: usize = 0;
        let mut spawned: usize = 0;
        let mut aborted: Option<Reconcile> = None;
        let mut si: usize = 0;
        let ghost m = self@;
        proof {
            self.wf_model();
        }
        while si < groups.len()
            invariant
                m == old(self)@,
                self.base_ok(),
                groups@.len() == m.stores.len(),
                slots(m.stores).len() <= usize::MAX,
                forall|i: int|
                    0 <= i < m.stores.len() ==> (#[trigger] m.stores[i]).lines.len() <= usize::MAX,
                forall|k: int|
                    0 <= k < groups@.len() ==> (#[trigger] groups@[k])@ == m.group(indices@, k),
                si <= groups.len(),
                ({
                    let run = m.completing(indices@, si as nat);
                    &&& self@ == run.tree
                    &&& completed == run.completed
                    &&& spawned == run.spawned
                    &&& aborted == run.aborted
                    &&& run.error is None
                }),
            decreases groups.len() - si,
        {
            let ghost run = m.completing(indices@, si as nat);
            proof {
                lemma_completing(m, indices@, si as nat);
                lemma_completing(m, indices@, (si + 1) as nat);
                lemma_lines_before_all(m.stores, si + 1);
                lemma_lines_before(m.stores, si as int);
                assert(groups@[si as int]@ == m.group(indices@, si as int));
                assert(self@.stores.len() == self.stores@.len());
            }
            if !groups[si].is_empty() {
                let out: BulkCompleteOutcome = self.stores[si].complete_many(&groups[si]);
                proof {
                    assert(self@ =~= run.tree.with_store(si as int, self.stores@[si as int]@));
                }
                match out {
                    BulkCompleteOutcome::Done { completed: c, spawned: s } => {
                        completed += c;
                        spawned += s;
                        self.undo_order.push(si);
                        proof {
                            assert(self@ =~= m.completing(indices@, (si + 1) as nat).tree);
                        }
                    },
                    BulkCompleteOutcome::NothingToComplete => {},
                    BulkCompleteOutcome::Aborted(r) => {
                        aborted = Some(r);
                    },
                    BulkCompleteOutcome::Error(e) => {
                        self.rebuild();
                        proof {
                            lemma_completing_stopped(
                                m,
                                indices@,
                                (si + 1) as nat,
                                m.stores.len(),
                            );
                        }
                        return BulkCompleteOutcome::Error(e);
                    },
                }
            }
            si += 1;
        }
        self.rebuild();
        if let Some(r) = aborted {
            return BulkCompleteOutcome::Aborted(r);
        }
        if completed == 0 {
            BulkCompleteOutcome::NothingToComplete
        } else {
            BulkCompleteOutcome::Done { completed, spawned }
        }
    }

    /// Delete the tasks at `indices`, each from its own file.
    pub fn delete_many(&mut self, indices: &[usize]) -> (r: BulkDeleteOutcome)
        requires
            old(self).wf(),
        ensures
            final(self).wf(),
            (final(self)@, r) == old(self)@.delete_indices(indices@),
    {
        let groups: Vec<Vec<usize>> = self.group_by_store(indices);
        let mut deleted: usize = 0;
        let mut aborted: Option<Reconcile> = None;
        let mut si: usize = 0;
        let ghost m = self@;
        proof {
            self.wf_model();
        }
        while si < groups.len()
            invariant
                m == old(self)@,
                self.base_ok(),
                groups@.len() == m.stores.len(),
                slots(m.stores).len() <= usize::MAX,
                forall|i: int|
                    0 <= i < m.stores.len() ==> (#[trigger] m.stores[i]).lines.len() <= usize::MAX,
                forall|k: int|
                    0 <= k < groups@.len() ==> (#[trigger] groups@[k])@ == m.group(indices@, k),
                si <= groups.len(),
                ({
                    let run = m.deleting(indices@, si as nat);
                    &&& self@ == run.tree
                    &&& deleted == run.deleted
                    &&& aborted == run.aborted
                    &&& run.error is None
                }),
            decreases groups.len() - si,
        {
            let ghost run = m.deleting(indices@, si as nat);
            proof {
                lemma_deleting(m, indices@, si as nat);
                lemma_deleting(m, indices@, (si + 1) as nat);
                lemma_lines_before_all(m.stores, si + 1);
                lemma_lines_before(m.stores, si as int);
                assert(groups@[si as int]@ == m.group(indices@, si as int));
                assert(self@.stores.len() == self.stores@.len());
            }
            if !groups[si].is_empty() {
                let out: BulkDeleteOutcome = self.stores[si].delete_many(&groups[si]);
                proof {
                    assert(self@ =~= run.tree.with_store(si as int, self.stores@[si as int]@));
                }
                match out {
                    BulkDeleteOutcome::Done { deleted: d } => {
                        deleted += d;
                        self.undo_order.push(si);
                        proof {
                            assert(self@ =~= m.deleting(indices@, (si + 1) as nat).tree);
                        }
                    },
                    BulkDeleteOutcome::Nothing => {},
                    BulkDeleteOutcome::Aborted(r) => {
                        aborted = Some(r);
                    },
                    BulkDeleteOutcome::Error(e) => {
                        self.rebuild();
                        proof {
                            lemma_deleting_stopped(m, indices@, (si + 1) as nat, m.stores.len());
                        }
                        return BulkDeleteOutcome::Error(e);
                    },
                }
            }
            si += 1;
        }
        self.rebuild();
        if let Some(r) = aborted {
            return BulkDeleteOutcome::Aborted(r);
        }
        if deleted == 0 {
            BulkDeleteOutcome::Nothing
        } else {
            BulkDeleteOutcome::Done { deleted }
        }
    }

    /// The archive of the primary file.
    pub fn archive(&self) -> (r: &Archive)
        requires
            self.wf(),
        ensures
            r.wf(),
            r@ == self@.stores[self@.root_index()].archive,
    {
        let si: usize = self.root_store();
        self.stores[si].archive()
    }

    /// Read the primary file's archive again when its file has changed.
    pub fn poll_archive(&mut self) -> (changed: bool)
        requires
            old(self).wf(),
        ensures
            final(self).wf(),
            (final(self)@, changed) == old(self)@.archive_polled(),
    {
        let si: usize = self.root_store();
        let changed: bool = self.stores[si].poll_archive();
        proof {
            self.lemma_same_tasks(old(self), si as int);
        }
        changed
    }

    /// Move completed tasks to the archive beside each file.
    pub fn archive_completed(&mut self) -> (r: ArchiveOutcome)
        requires
            old(self).wf(),
        ensures
            final(self).wf(),
            (final(self)@, r) == old(self)@.archive_all(),
    {
        let mut total: usize = 0;
        let mut si: usize = 0;
        let ghost m = self@;
        proof {
            self.wf_model();
        }
        while si < self.stores.len()
            invariant
                m == old(self)@,
                self.base_ok(),
                self.stores@.len() == m.stores.len(),
                slots(m.stores).len() <= usize::MAX,
                forall|i: int|
                    0 <= i < m.stores.len() ==> (#[trigger] m.stores[i]).lines.len() <= usize::MAX,
                si <= self.stores.len(),
                ({
                    let run = m.archiving(si as nat);
                    &&& self@ == run.tree
                    &&& total == run.total
                    &&& run.stop is None
                }),
            decreases self.stores.len() - si,
        {
            let ghost run = m.archiving(si as nat);
            proof {
                lemma_archiving(m, si as nat);
                lemma_archiving(m, (si + 1) as nat);
                lemma_lines_before_all(m.stores, si + 1);
            }
            let out: ArchiveOutcome = self.stores[si].archive_completed();
            proof {
                assert(self@ =~= run.tree.with_store(si as int, self.stores@[si as int]@));
            }
            match out {
                ArchiveOutcome::Archived { count } => {
                    total += count;
                },
                ArchiveOutcome::Nothing => {},
                ArchiveOutcome::Aborted(r) => {
                    self.rebuild();
                    proof {
                        lemma_archiving_stopped(m, (si + 1) as nat, m.stores.len());
                    }
                    return ArchiveOutcome::Aborted(r);
                },
                ArchiveOutcome::Error(e) => {
                    self.rebuild();
                    proof {
                        lemma_archiving_stopped(m, (si + 1) as nat, m.stores.len());
                    }
                    return ArchiveOutcome::Error(e);
                },
            }
            si += 1;
        }
        self.rebuild();
        if total == 0 {
            ArchiveOutcome::Nothing
        } else {
            ArchiveOutcome::Archived { count: total }
        }
    }

    /// Restore an archived task (primary file's archive only).
    pub fn unarchive(&mut self, archive_idx: usize) -> (r: UnarchiveOutcome)
        requires
            old(self).wf(),
        ensures
            final(self).wf(),
            (final(self)@, r) == old(self)@.restored(archive_idx as int),
    {
        let si: usize = self.root_store();
        let out: UnarchiveOutcome = self.stores[si].unarchive(archive_idx);
        proof {
            assert(self@ =~= old(self)@.with_store(si as int, self.stores@[si as int]@));
        }
        self.rebuild();
        out
    }

    /// Permanently delete an archived task (primary file's archive only).
    pub fn archive_delete(&mut self, archive_idx: usize) -> (r: ArchiveDeleteOutcome)
        requires
            old(self).wf(),
        ensures
            final(self).wf(),
            (final(self)@, r) == old(self)@.archive_removed(archive_idx as int),
    {
        let si: usize = self.root_store();
        let out: ArchiveDeleteOutcome = self.stores[si].archive_delete(archive_idx);
        proof {
            self.lemma_same_tasks(old(self), si as int);
        }
        out
    }

    /// Move the tasks of the primary file's inbox to the file.
    pub fn drain_inbox(&mut self) -> (r: DrainReport)
        requires
            old(self).wf(),
        ensures
            final(self).wf(),
            (final(self)@, r) == old(self)@.drained(),
    {
        let si: usize = self.root_store();
        let report: DrainReport = self.stores[si].drain_inbox();
        proof {
            assert(self@ =~= old(self)@.with_store(si as int, self.stores@[si as int]@));
        }
        self.rebuild();
        report
    }

    /// Undo the most recent change, on whichever file it touched.
    pub fn undo(&mut self) -> (r: UndoOutcome)
        requires
            old(self).wf(),
        ensures
            final(self).wf(),
            (final(self)@, r) == old(self)@.undone(),
    {
        let si: usize = match self.undo_order.pop() {
            Some(si) => si,
            None => {
                return UndoOutcome::Nothing;
            },
        };
        proof {
            assert(old(self).undo_order@[old(self).undo_order@.len() - 1] == si);
        }
        let out: UndoOutcome = self.stores[si].undo();
        proof {
            assert(self@ =~= old(self)@.undone().0);
        }
        self.rebuild();
        out
    }

    /// Reconcile every file with its image. Tells whether some file had
    /// changed, or else whether some could not be read.
    pub fn reconcile(&mut self) -> (r: Reconcile)
        requires
            old(self).wf(),
        ensures
            final(self).wf(),
            (final(self)@, r) == old(self)@.reconciled(),
    {
        let mut result: Reconcile = Reconcile::Unchanged;
        let mut si: usize = 0;
        let ghost m = self@;
        let ghost before = *self;
        while si < self.stores.len()
            invariant
                m == old(self)@,
                before == *old(self),
                before.wf(),
                m.stores == views(before.stores@),
                si <= self.stores.len(),
                self.stores@.len() == before.stores@.len(),
                self.root == before.root,
                self.agg == before.agg,
                self.map == before.map,
                self.undo_order == before.undo_order,
                self.today == before.today,
                forall|k: int| 0 <= k < self.stores@.len() ==> (#[trigger] self.stores@[k]).wf(),
                forall|k: int|
                    0 <= k < si ==> (#[trigger] self.stores@[k])@ == m.stores[k].reconciled().0,
                forall|k: int|
                    si <= k < self.stores@.len() ==> (#[trigger] self.stores@[k])
                        == before.stores@[k],
                result == Reconcile::Unchanged ==> self.stores@ == before.stores@,
                (result == Reconcile::Reloaded) == (exists|k: int|
                    0 <= k < si && (#[trigger] m.stores[k]).reconciled().1
                        == Reconcile::Reloaded),
                result == Reconcile::ReadError ==> exists|k: int|
                    0 <= k < si && (#[trigger] m.stores[k]).reconciled().1
                        == Reconcile::ReadError,
                result == Reconcile::Unchanged ==> forall|k: int|
                    0 <= k < si ==> (#[trigger] m.stores[k]).reconciled().1
                        == Reconcile::Unchanged,
            decreases self.stores.len() - si,
        {
            let ghost now = self.stores@;
            proof {
                assert(self.stores@[si as int] == before.stores@[si as int]);
                assert(m.stores[si as int] == before.stores@[si as int]@);
            }
            let found: Reconcile = self.stores[si].reconcile();
            match found {
                Reconcile::Unchanged => {
                    proof {
                        assert(self.stores@ =~= now);
                    }
                },
                Reconcile::Reloaded => {
                    result = Reconcile::Reloaded;
                },
                Reconcile::ReadError => {
                    if result == Reconcile::Unchanged {
                        result = Reconcile::ReadError;
                    }
                },
            }
            si += 1;
        }
        if result != Reconcile::Unchanged {
            self.undo_order.clear();
            self.rebuild();
        }
        proof {
            let want = m.reconciled();
            assert(self@.stores =~= want.0.stores);
            assert(self@ =~= want.0);
        }
        result
    }

    /// How many files there are.
    pub fn store_count(&self) -> (r: usize)
        ensures
            r == self@.stores.len(),
    {
        self.stores.len()
    }

    /// The image of one of the files of store `si`.
    pub fn slot(&self, si: usize, which: FileKind) -> (r: &FileSlot)
        requires
            si < self@.stores.len(),
        ensures
            r@ == (match which {
                FileKind::Todo => self@.stores[si as int].file,
                FileKind::Done => self@.stores[si as int].done_file,
                FileKind::Inbox => self@.stores[si as int].inbox,
            }),
    {
        match which {
            FileKind::Todo => self.stores[si].file_slot(),
            FileKind::Done => self.stores[si].done_slot(),
            FileKind::Inbox => self.stores[si].inbox_slot(),
        }
    }

    /// Load what reading one of the files of store `si` gave.
    pub fn load_slot(&mut self, si: usize, which: FileKind, text: Option<String>, writable: bool)
        requires
            old(self).wf(),
            si < old(self)@.stores.len(),
        ensures
            final(self).wf(),
            final(self)@ == old(self)@.with_store(
                si as int,
                old(self)@.stores[si as int].loaded(which, todo::opt_text(text), writable),
            ),
    {
        self.stores[si].load(which, text, writable);
        proof {
            self.lemma_same_tasks(old(self), si as int);
        }
    }
}

} // verus!
