//! The visible list: which tasks are shown, in which order, under which
//! headings, and where the cursor stands.
use crate::date;
use crate::date::is_number;
use crate::draft::Draft;
use crate::filter;
use crate::filter::{due_bucket, list_predicate, sort_key, Filter, ListDueBucket};
use crate::jump;
use crate::jump::JumpState;
use crate::line;
use crate::order;
use crate::order::{listing, Ordered};
use crate::outcome::AddOutcome;
use crate::path::TreePath;
use crate::store::Archive;
use crate::text;
use crate::text::{chars_of, same_text, text_not_after};
use crate::todo;
use crate::todo::Task;
use crate::tree;
use crate::tree::TreeStore;
use crate::types;
use crate::types::{Prefs, Sort};
use vstd::prelude::*;

verus! {

/// A row in the tree-mode list: a directory header, or a task referenced by its
/// index into the visible list.
#[derive(Debug, Clone, PartialEq, Eq)]
pub enum TreeRow {
    Header {
        /// Directory depth (0 = directly under the scan root).
        depth: usize,
        name: String,
        collapsed: bool,
    },
    Task {
        /// Index into the visible list.
        vis: usize,
        /// Area depth of the task (for indentation).
        depth: usize,
    },
}

/// What a [`TreeRow`] says.
pub enum RowView {
    Header { depth: int, name: Seq<char>, collapsed: bool },
    Task { vis: int, depth: int },
}

pub open spec fn row_view(r: TreeRow) -> RowView {
    match r {
        TreeRow::Header { depth, name, collapsed } => RowView::Header {
            depth: depth as int,
            name: name@,
            collapsed,
        },
        TreeRow::Task { vis, depth } => RowView::Task { vis: vis as int, depth: depth as int },
    }
}

pub open spec fn row_views(rows: Seq<TreeRow>) -> Seq<RowView> {
    Seq::new(rows.len(), |i: int| row_view(rows[i]))
}

/// One entry per visible row, parallel to the visible list. Renderers detect
/// group transitions by comparing successive entries; under `Sort::File` every
/// row is `Plain` so the renderer skips headers.
#[derive(Debug, Clone, PartialEq, Eq)]
pub enum GroupKey {
    Plain,
    ArchiveDate(String),
    /// `Some('A'..='Z')` for a graded priority, `None` for unprioritized.
    ListPriority(Option<char>),
    ListDue(ListDueBucket),
}

/// What a [`GroupKey`] says.
pub enum GroupView {
    Plain,
    ArchiveDate(Seq<char>),
    ListPriority(Option<char>),
    ListDue(ListDueBucket),
}

pub open spec fn group_view(g: GroupKey) -> GroupView {
    match g {
        GroupKey::Plain => GroupView::Plain,
        GroupKey::ArchiveDate(s) => GroupView::ArchiveDate(s@),
        GroupKey::ListPriority(p) => GroupView::ListPriority(p),
        GroupKey::ListDue(b) => GroupView::ListDue(b),
    }
}

pub open spec fn group_views(groups: Seq<GroupKey>) -> Seq<GroupView> {
    Seq::new(groups.len(), |i: int| group_view(groups[i]))
}

/// The paths in a list, as a set.
pub open spec fn path_set(v: Seq<TreePath>) -> Set<Seq<Seq<char>>> {
    Set::new(|p: Seq<Seq<char>>| exists|i: int| 0 <= i < v.len() && (#[trigger] v[i])@ == p)
}

/// No path occurs twice.
pub open spec fn all_distinct(v: Seq<TreePath>) -> bool {
    forall|i: int, j: int| 0 <= i < j < v.len() ==> (#[trigger] v[i])@ != (#[trigger] v[j])@
}

/// The depth, from `d` on, of the first collapsed directory on the way to an
/// area.
pub open spec fn first_collapsed(
    area: Seq<Seq<char>>,
    collapsed: Set<Seq<Seq<char>>>,
    d: int,
) -> Option<int>
    decreases area.len() - d,
{
    if d >= area.len() {
        None
    } else if collapsed.contains(area.take(d + 1)) {
        Some(d)
    } else {
        first_collapsed(area, collapsed, d + 1)
    }
}

/// Some directory on the way to the area is collapsed.
pub open spec fn is_hidden(area: Seq<Seq<char>>, collapsed: Set<Seq<Seq<char>>>) -> bool {
    first_collapsed(area, collapsed, 0) is Some
}

/// The part of an area that is shown: all of it, or down to the first
/// collapsed directory.
pub open spec fn shown_part(
    area: Seq<Seq<char>>,
    collapsed: Set<Seq<Seq<char>>>,
) -> Seq<Seq<char>> {
    match first_collapsed(area, collapsed, 0) {
        Some(d) => area.take(d + 1),
        None => area,
    }
}

/// How many components two paths share from the start, at least `i`.
pub open spec fn shared_from(a: Seq<Seq<char>>, b: Seq<Seq<char>>, i: int) -> int
    decreases a.len() - i,
{
    if i < a.len() && i < b.len() && a[i] == b[i] {
        shared_from(a, b, i + 1)
    } else {
        i
    }
}

/// How many components two paths share from the start.
pub open spec fn shared(a: Seq<Seq<char>>, b: Seq<Seq<char>>) -> int {
    shared_from(a, b, 0)
}

/// Headers for the directories of `now` that `before` does not have; the last
/// directory is marked when the area is hidden below it.
pub open spec fn headers(
    before: Seq<Seq<char>>,
    now: Seq<Seq<char>>,
    hidden: bool,
) -> Seq<RowView> {
    let from = shared(before, now);
    Seq::new(
        (now.len() - from) as nat,
        |j: int|
            RowView::Header {
                depth: from + j,
                name: now[from + j],
                collapsed: hidden && from + j == now.len() - 1,
            },
    )
}

/// Those of the first `k` tasks that no collapsed directory hides. `areas[p]`
/// is the area of the task `idxs[p]`.
pub open spec fn unhidden(
    idxs: Seq<usize>,
    areas: Seq<Seq<Seq<char>>>,
    collapsed: Set<Seq<Seq<char>>>,
    k: nat,
) -> Seq<usize>
    decreases k,
{
    if k == 0 {
        Seq::empty()
    } else {
        let before = unhidden(idxs, areas, collapsed, (k - 1) as nat);
        if is_hidden(areas[k - 1], collapsed) {
            before
        } else {
            before.push(idxs[k - 1])
        }
    }
}

/// The part of the area before the `k`th task that is shown; nothing before
/// the first.
pub open spec fn part_before(
    areas: Seq<Seq<Seq<char>>>,
    collapsed: Set<Seq<Seq<char>>>,
    k: int,
) -> Seq<Seq<char>> {
    if k == 0 {
        Seq::empty()
    } else {
        shown_part(areas[k - 1], collapsed)
    }
}

/// The rows for the first `k` tasks: for each, headers for the directories that
/// its predecessor does not share, and a row of its own unless it is hidden.
pub open spec fn rows_for(
    idxs: Seq<usize>,
    areas: Seq<Seq<Seq<char>>>,
    collapsed: Set<Seq<Seq<char>>>,
    k: nat,
) -> Seq<RowView>
    decreases k,
{
    if k == 0 {
        Seq::empty()
    } else {
        let area = areas[k - 1];
        let hidden = is_hidden(area, collapsed);
        let heads = rows_for(idxs, areas, collapsed, (k - 1) as nat) + headers(
            part_before(areas, collapsed, k - 1),
            shown_part(area, collapsed),
            hidden,
        );
        if hidden {
            heads
        } else {
            heads.push(
                RowView::Task {
                    vis: unhidden(idxs, areas, collapsed, (k - 1) as nat).len() as int,
                    depth: area.len() as int,
                },
            )
        }
    }
}

proof fn lemma_shared_from(a: Seq<Seq<char>>, b: Seq<Seq<char>>, i: int, n: int)
    requires
        0 <= i <= n,
        n <= a.len(),
        n <= b.len(),
        forall|k: int| i <= k < n ==> a[k] == b[k],
        n == a.len() || n == b.len() || a[n] != b[n],
    ensures
        shared_from(a, b, i) == n,
    decreases n - i,
{
    if i < n {
        lemma_shared_from(a, b, i + 1, n);
    }
}

proof fn lemma_first_collapsed(
    area: Seq<Seq<char>>,
    collapsed: Set<Seq<Seq<char>>>,
    d: int,
    n: int,
)
    requires
        0 <= d <= n <= area.len(),
        forall|k: int| d <= k < n ==> !collapsed.contains(#[trigger] area.take(k + 1)),
        n < area.len() ==> collapsed.contains(area.take(n + 1)),
    ensures
        first_collapsed(area, collapsed, d) == (if n < area.len() {
            Some(n)
        } else {
            None
        }),
    decreases n - d,
{
    if d < n {
        assert(!collapsed.contains(area.take(d + 1)));
        lemma_first_collapsed(area, collapsed, d + 1, n);
    }
}

proof fn lemma_stays_hidden(
    area: Seq<Seq<char>>,
    collapsed: Set<Seq<Seq<char>>>,
    cut: Seq<Seq<char>>,
)
    requires
        cut.len() > 0,
        collapsed.contains(cut),
        forall|k: int| 0 <= k < cut.len() - 1 ==> !collapsed.contains(#[trigger] cut.take(k + 1)),
        cut.is_prefix_of(area),
    ensures
        is_hidden(area, collapsed),
        shown_part(area, collapsed) == cut,
        headers(cut, cut, true) == Seq::<RowView>::empty(),
{
    let n = cut.len() - 1;
    assert(area.take(n + 1) =~= cut);
    assert forall|k: int| 0 <= k < n implies !collapsed.contains(#[trigger] area.take(k + 1)) by {
        assert(area.take(k + 1) =~= cut.take(k + 1));
    }
    lemma_first_collapsed(area, collapsed, 0, n);
    lemma_shared_from(cut, cut, 0, cut.len() as int);
    assert(headers(cut, cut, true) =~= Seq::<RowView>::empty());
}

/// Headers for the components of an area from `from` up to `to`, none of them
/// marked.
spec fn open_headers(area: Seq<Seq<char>>, from: int, to: int) -> Seq<RowView> {
    Seq::new(
        (to - from) as nat,
        |j: int|
            RowView::Header { depth: from + j, name: area[from + j], collapsed: false },
    )
}

proof fn lemma_new_headers(
    area: Seq<Seq<char>>,
    collapsed: Set<Seq<Seq<char>>>,
    cut: Seq<Seq<char>>,
    common: int,
    d: int,
)
    requires
        0 <= common <= d <= area.len(),
        common <= cut.len(),
        forall|k: int| 0 <= k < common ==> area[k] == cut[k],
        common == area.len() || common == cut.len() || area[common] != cut[common],
        forall|k: int| 0 <= k < d ==> !collapsed.contains(#[trigger] area.take(k + 1)),
        d < area.len() ==> collapsed.contains(area.take(d + 1)),
    ensures
        is_hidden(area, collapsed) == (d < area.len()),
        d < area.len() ==> {
            &&& shown_part(area, collapsed) == area.take(d + 1)
            &&& headers(cut, area.take(d + 1), true) == open_headers(area, common, d).push(
                RowView::Header { depth: d, name: area[d], collapsed: true },
            )
        },
        d == area.len() ==> {
            &&& shown_part(area, collapsed) == area
            &&& headers(cut, area, false) == open_headers(area, common, d)
        },
{
    lemma_first_collapsed(area, collapsed, 0, d);
    if d < area.len() {
        let shown = area.take(d + 1);
        lemma_shared_from(cut, shown, 0, common);
        assert(headers(cut, shown, true) =~= open_headers(area, common, d).push(
            RowView::Header { depth: d, name: area[d], collapsed: true },
        ));
    } else {
        lemma_shared_from(cut, area, 0, common);
        assert(headers(cut, area, false) =~= open_headers(area, common, d));
    }
}

/// Whether a list holds a path.
fn holds(v: &Vec<TreePath>, p: &TreePath) -> (r: bool)
    ensures
        r == path_set(v@).contains(p@),
{
    let mut i: usize = 0;
    while i < v.len()
        invariant
            i <= v.len(),
            forall|k: int| 0 <= k < i ==> (#[trigger] v@[k])@ != p@,
        decreases v.len() - i,
    {
        if v[i].same(p) {
            proof {
                assert(v@[i as int]@ == p@);
            }
            return true;
        }
        i += 1;
    }
    false
}

/// Take a path out of a list; tells whether it was there.
fn take_out(v: &mut Vec<TreePath>, p: &TreePath) -> (r: bool)
    requires
        all_distinct(old(v)@),
    ensures
        all_distinct(final(v)@),
        r == path_set(old(v)@).contains(p@),
        path_set(final(v)@) == path_set(old(v)@).remove(p@),
{
    let ghost was = v@;
    let mut i: usize = 0;
    while i < v.len()
        invariant
            i <= v.len(),
            v@ == was,
            was == old(v)@,
            all_distinct(was),
            forall|k: int| 0 <= k < i ==> (#[trigger] v@[k])@ != p@,
        decreases v.len() - i,
    {
        if v[i].same(p) {
            v.remove(i);
            proof {
                let now = v@;
                assert(was[i as int]@ == p@);
                assert forall|q: Seq<Seq<char>>| #[trigger] path_set(now).contains(q) == path_set(
                    was,
                ).remove(p@).contains(q) by {
                    if path_set(now).contains(q) {
                        let k = choose|k: int| 0 <= k < now.len() && (#[trigger] now[k])@ == q;
                        let ko = if k < i { k } else { k + 1 };
                        assert(now[k] == was[ko]);
                        assert(was[ko]@ != was[i as int]@);
                    }
                    if path_set(was).remove(p@).contains(q) {
                        let k = choose|k: int| 0 <= k < was.len() && (#[trigger] was[k])@ == q;
                        let kn = if k < i { k } else { k - 1 };
                        assert(now[kn] == was[k]);
                    }
                }
                assert(path_set(now) =~= path_set(was).remove(p@));
                assert forall|a: int, b: int| 0 <= a < b < now.len() implies (#[trigger] now[a])@
                    != (#[trigger] now[b])@ by {
                    let ao = if a < i { a } else { a + 1 };
                    let bo = if b < i { b } else { b + 1 };
                    assert(now[a] == was[ao] && now[b] == was[bo]);
                }
            }
            return true;
        }
        i += 1;
    }
    proof {
        assert(path_set(was).remove(p@) =~= path_set(was));
    }
    false
}

/// How many components two paths share from the start.
fn shared_prefix(a: &TreePath, b: &TreePath) -> (r: usize)
    ensures
        r <= a@.len(),
        r <= b@.len(),
        forall|k: int| 0 <= k < r ==> a@[k] == b@[k],
        r == a@.len() || r == b@.len() || a@[r as int] != b@[r as int],
{
    let mut i: usize = 0;
    while i < a.parts.len() && i < b.parts.len() && same_text(
        a.parts[i].as_str(),
        b.parts[i].as_str(),
    )
        invariant
            i <= a.parts.len(),
            i <= b.parts.len(),
            forall|k: int| 0 <= k < i ==> a@[k] == b@[k],
        decreases a.parts.len() - i,
    {
        i += 1;
    }
    i
}

/// The areas of tasks.
pub open spec fn areas_of(tree: tree::TreeView, idxs: Seq<usize>) -> Seq<Seq<Seq<char>>> {
    Seq::new(idxs.len(), |p: int| tree.area_of(idxs[p] as int))
}

/// The application: a tree of task files, what is shown of it, and where the
/// cursor stands.
#[derive(Debug)]
pub struct App {
    pub view: types::View,
    pub filter: Filter,
    pub prefs: Prefs,
    pub store: TreeStore,
    /// The selected row of the visible list.
    pub cursor: usize,
    /// Rows to go back to in the views that are not shown.
    pub list_cursor: usize,
    pub archive_cursor: usize,
    pub draft: Draft,
    pub jump: JumpState,
    pub visible_cache: Vec<usize>,
    pub visible_groups: Vec<GroupKey>,
    pub tree_rows: Vec<TreeRow>,
    /// Collapsed directories, below the root; none occurs twice.
    pub collapsed: Vec<TreePath>,
    pub message: Option<String>,
}

/// What an [`App`] holds.
#[verifier::ext_equal]
pub struct AppView {
    pub view: types::View,
    pub filter: filter::FilterView,
    pub prefs: Prefs,
    pub store: tree::TreeView,
    pub cursor: usize,
    pub list_cursor: usize,
    pub archive_cursor: usize,
    pub draft: Seq<char>,
    pub draft_cursor: usize,
    pub jump: jump::JumpView,
    pub visible: Seq<usize>,
    pub groups: Seq<GroupView>,
    pub rows: Seq<RowView>,
    pub collapsed: Set<Seq<Seq<char>>>,
    pub message: Option<Seq<char>>,
}

impl View for App {
    type V = AppView;

    open spec fn view(&self) -> AppView {
        AppView {
            view: self.view,
            filter: self.filter@,
            prefs: self.prefs,
            store: self.store@,
            cursor: self.cursor,
            list_cursor: self.list_cursor,
            archive_cursor: self.archive_cursor,
            draft: self.draft.text@,
            draft_cursor: self.draft.cursor,
            jump: self.jump@,
            visible: self.visible_cache@,
            groups: group_views(self.visible_groups@),
            rows: row_views(self.tree_rows@),
            collapsed: path_set(self.collapsed@),
            message: todo::opt_text(self.message),
        }
    }
}

/// The day a line was completed on; empty when it does not say.
pub open spec fn done_on(raw: Seq<char>) -> Seq<char> {
    match line::parts_of(raw).done_date {
        Some(d) => d,
        None => Seq::empty(),
    }
}

/// The heading of an archived line.
pub open spec fn archive_group(raw: Seq<char>) -> GroupView {
    match line::parts_of(raw).done_date {
        Some(d) => GroupView::ArchiveDate(d),
        None => GroupView::ArchiveDate("unknown"@),
    }
}

/// Lines in the order of their completion, the latest first.
pub open spec fn newest_first(lines: Seq<Seq<char>>) -> spec_fn(int, int) -> bool {
    |a: int, b: int| text::text_le(done_on(lines[b]), done_on(lines[a]))
}

/// A mark for each of `n` lines.
pub open spec fn every(n: nat) -> Seq<bool> {
    Seq::new(n, |i: int| true)
}

/// The heading of a listed line.
pub open spec fn list_group(raw: Seq<char>, sort: Sort, today: Seq<char>) -> GroupView {
    match sort {
        Sort::File => GroupView::Plain,
        Sort::Priority => GroupView::ListPriority(line::parts_of(raw).priority),
        Sort::Due => GroupView::ListDue(filter::bucket_of(raw, today)),
    }
}

impl AppView {
    /// More than one file, or none, is shown as a tree.
    pub open spec fn is_tree_mode(self) -> bool {
        self.store.stores.len() != 1
    }

    /// The lines of all task files.
    pub open spec fn lines(self) -> Seq<Seq<char>> {
        tree::flat_lines(self.store.stores)
    }

    /// The archived lines.
    pub open spec fn archived(self) -> Seq<Seq<char>> {
        self.store.stores[self.store.root_index()].archive.lines
    }

    /// The query, unless it is empty.
    pub open spec fn needle(self) -> Option<Seq<char>> {
        if self.filter.search.len() == 0 {
            None
        } else {
            Some(self.filter.search)
        }
    }

    /// The line passes the filter.
    pub open spec fn lists(self, raw: Seq<char>) -> bool {
        filter::is_listed(
            raw,
            self.prefs.show_done,
            self.prefs.show_future,
            self.store.today,
            self.filter,
            self.needle(),
        )
    }

    pub open spec fn listed(self) -> Seq<bool> {
        Seq::new(self.lines().len(), |i: int| self.lists(self.lines()[i]))
    }

    pub open spec fn sort_ranks(self) -> Seq<u64> {
        Seq::new(
            self.lines().len(),
            |i: int| filter::sort_rank(self.lines()[i], self.prefs.sort),
        )
    }

    /// The tasks that pass the filter, in the order of the preferences.
    pub open spec fn list_order(self) -> Seq<usize> {
        order::listing_of(self.listed(), self.sort_ranks())
    }

    /// The archived tasks, the latest first.
    pub open spec fn archive_order(self) -> Seq<usize> {
        order::arrangement_of(every(self.archived().len()), newest_first(self.archived()))
    }

    /// What the list view shows.
    pub open spec fn with_list(self) -> AppView {
        let idxs = self.list_order();
        if self.is_tree_mode() {
            let areas = areas_of(self.store, idxs);
            let visible = unhidden(idxs, areas, self.collapsed, idxs.len());
            AppView {
                visible,
                groups: Seq::new(visible.len(), |p: int| GroupView::Plain),
                rows: rows_for(idxs, areas, self.collapsed, idxs.len()),
                ..self
            }
        } else {
            AppView {
                visible: idxs,
                groups: Seq::new(
                    idxs.len(),
                    |p: int|
                        list_group(
                            self.lines()[idxs[p] as int],
                            self.prefs.sort,
                            self.store.today,
                        ),
                ),
                rows: Seq::empty(),
                ..self
            }
        }
    }

    /// What the archive view shows; the rows of the tree stay.
    pub open spec fn with_archive(self) -> AppView {
        let idxs = self.archive_order();
        AppView {
            visible: idxs,
            groups: Seq::new(idxs.len(), |p: int| archive_group(self.archived()[idxs[p] as int])),
            ..self
        }
    }

    /// What the current view shows.
    pub open spec fn recomputed(self) -> AppView {
        match self.view {
            types::View::List => self.with_list(),
            types::View::Archive => self.with_archive(),
        }
    }

    /// The cursor on a row, if there is one.
    pub open spec fn clamped(self) -> AppView {
        AppView {
            cursor: if self.visible.len() == 0 {
                0
            } else if self.cursor >= self.visible.len() {
                (self.visible.len() - 1) as usize
            } else {
                self.cursor
            },
            ..self
        }
    }

    /// The task under the cursor.
    pub open spec fn current(self) -> Option<usize> {
        if self.cursor < self.visible.len() {
            Some(self.visible[self.cursor as int])
        } else {
            None
        }
    }

    /// The cursor on the task `abs`, if it is shown.
    pub open spec fn following(self, abs: usize) -> AppView {
        if self.visible.contains(abs) {
            AppView { cursor: self.visible.index_of_first(abs)->0 as usize, ..self }
        } else {
            self.clamped()
        }
    }

    /// The folder of the current task collapsed, or expanded again.
    pub open spec fn collapse_toggled(self) -> AppView {
        if !self.is_tree_mode() || self.current() is None {
            self
        } else {
            let area = self.store.area_of(self.current()->0 as int);
            if area.len() == 0 {
                AppView { message: Some("root tasks have no folder to collapse"@), ..self }
            } else if self.collapsed.contains(area) {
                AppView { collapsed: self.collapsed.remove(area), ..self }.recomputed().clamped()
            } else {
                AppView { collapsed: self.collapsed.insert(area), ..self }.recomputed().clamped()
            }
        }
    }

    /// Every folder expanded.
    pub open spec fn expanded(self) -> AppView {
        if self.collapsed == Set::<Seq<Seq<char>>>::empty() {
            self
        } else {
            AppView { collapsed: Set::empty(), ..self }.recomputed().clamped()
        }
    }

    /// Another view, with the cursor where that view had it.
    pub open spec fn showing(self, view: types::View) -> AppView {
        let parked = match self.view {
            types::View::List => AppView { list_cursor: self.cursor, ..self },
            types::View::Archive => AppView { archive_cursor: self.cursor, ..self },
        };
        let shown = AppView { view, ..parked }.recomputed();
        AppView {
            cursor: match view {
                types::View::List => shown.list_cursor,
                types::View::Archive => shown.archive_cursor,
            },
            ..shown
        }.clamped()
    }

    /// The current day taken over; the list follows if it is another one.
    pub open spec fn on_day(self, today: Seq<char>) -> AppView {
        let next = AppView { store: self.store.on_day(today), ..self };
        if self.store.on_another_day(today) {
            next.recomputed().clamped()
        } else {
            next
        }
    }

    /// The row of the visible list that the jump overlay points at: the row
    /// that a number counts to, the first row being 1 and the last row standing
    /// in for those past it, or else the target of the highlighted hit.
    pub open spec fn jump_row(self) -> Option<int> {
        if self.draft.len() > 0 && date::all_digits(self.draft) {
            let n = date::digits_value(self.draft);
            let last = self.visible.len() as int;
            if last == 0 {
                None
            } else if n < 1 {
                Some(0)
            } else if n > last {
                Some(last - 1)
            } else {
                Some(n - 1)
            }
        } else if self.jump.cursor < self.jump.hits.len() {
            Some(
                self.jump.candidates[self.jump.hits[self.jump.cursor as int].cand as int].target as int,
            )
        } else {
            None
        }
    }

    /// The cursor where the jump overlay points.
    pub open spec fn jumped(self) -> AppView {
        match self.jump_row() {
            Some(row) => AppView { cursor: row as usize, ..self }.clamped(),
            None => self,
        }
    }

    /// The draft added as a task of the root's own file.
    pub open spec fn draft_added(self) -> (AppView, AddOutcome) {
        let (store, out) = self.store.add_task(self.draft);
        let next = AppView { store, ..self };
        if out is Added {
            (AppView { draft: Seq::empty(), draft_cursor: 0, ..next }.recomputed().clamped(), out)
        } else {
            (next.recomputed().clamped(), out)
        }
    }
}

/// The day of a completed task, ordered the latest first.
pub struct DoneDay {
    pub day: String,
}

impl Ordered for DoneDay {
    open spec fn at_most(self, other: Self) -> bool {
        text::text_le(other.day@, self.day@)
    }

    proof fn total(a: Self, b: Self) {
        text::lemma_text_le_total(a.day@, b.day@);
    }

    proof fn transitive(a: Self, b: Self, c: Self) {
        text::lemma_text_le_transitive(c.day@, b.day@, a.day@);
    }

    fn not_after(&self, other: &Self) -> (r: bool) {
        text_not_after(other.day.as_str(), self.day.as_str())
    }
}

impl App {
    /// Walk filtered tasks into the visible list and its rows: a header for
    /// each new directory level and a row for each task. Of a collapsed
    /// directory only the header is there, and its tasks are left out.
    fn build_tree_rows(&self, idxs: &Vec<usize>) -> (r: (Vec<usize>, Vec<TreeRow>))
        requires
            self.store.wf(),
        ensures
            r.0@ == unhidden(
                idxs@,
                areas_of(self.store@, idxs@),
                path_set(self.collapsed@),
                idxs@.len(),
            ),
            row_views(r.1@) == rows_for(
                idxs@,
                areas_of(self.store@, idxs@),
                path_set(self.collapsed@),
                idxs@.len(),
            ),
    {
        let ghost areas = areas_of(self.store@, idxs@);
        let ghost closed_dirs = path_set(self.collapsed@);
        let mut visible: Vec<usize> = Vec::new();
        let mut rows: Vec<TreeRow> = Vec::new();
        let mut prev: TreePath = TreePath::new();
        let mut skip_under: Option<TreePath> = None;
        let mut k: usize = 0;
        proof {
            assert(row_views(rows@) =~= Seq::<RowView>::empty());
        }
        while k < idxs.len()
            invariant
                self.store.wf(),
                areas == areas_of(self.store@, idxs@),
                closed_dirs == path_set(self.collapsed@),
                k <= idxs.len(),
                visible@.len() <= k,
                visible@ == unhidden(idxs@, areas, closed_dirs, k as nat),
                row_views(rows@) == rows_for(idxs@, areas, closed_dirs, k as nat),
                match skip_under {
                    Some(s) => {
                        &&& s@ == part_before(areas, closed_dirs, k as int)
                        &&& s@.len() > 0
                        &&& closed_dirs.contains(s@)
                        &&& forall|j: int|
                            0 <= j < s@.len() - 1 ==> !closed_dirs.contains(
                                #[trigger] s@.take(j + 1),
                            )
                        &&& s@.is_prefix_of(prev@)
                    },
                    None => {
                        &&& prev@ == part_before(areas, closed_dirs, k as int)
                        &&& forall|j: int|
                            0 <= j < prev@.len() ==> !closed_dirs.contains(
                                #[trigger] prev@.take(j + 1),
                            )
                    },
                },
            decreases idxs.len() - k,
        {
            let i: usize = idxs[k];
            let comps: TreePath = self.store.area(i);
            let ghost cut = part_before(areas, closed_dirs, k as int);
            let ghost rows_before = row_views(rows@);
            assert(comps@ == areas[k as int]);
            let mut inside: bool = false;
            if let Some(s) = &skip_under {
                inside = comps.starts_with(s);
            }
            if inside {
                proof {
                    lemma_stays_hidden(comps@, closed_dirs, cut);
                    assert(rows_before + Seq::<RowView>::empty() =~= rows_before);
                }
                k += 1;
                continue ;
            }
            let common: usize = shared_prefix(&comps, &prev);
            proof {
                if let Some(s) = skip_under {
                    if common >= s@.len() {
                        assert forall|j: int| 0 <= j < s@.len() implies s@[j] == comps@.subrange(
                            0,
                            s@.len() as int,
                        )[j] by {
                            assert(prev@.subrange(0, s@.len() as int)[j] == prev@[j]);
                        }
                        assert(s@ =~= comps@.subrange(0, s@.len() as int));
                    }
                    assert forall|j: int| 0 <= j < s@.len() implies s@[j] == prev@[j] by {
                        assert(prev@.subrange(0, s@.len() as int)[j] == prev@[j]);
                    }
                }
                assert forall|j: int| 0 <= j < common implies !closed_dirs.contains(
                    #[trigger] comps@.take(j + 1),
                ) by {
                    assert(comps@.take(j + 1) =~= cut.take(j + 1));
                }
            }
            skip_under = None;
            let mut entered_collapsed: bool = false;
            let mut d: usize = common;
            proof {
                assert(rows_before + open_headers(comps@, common as int, d as int)
                    =~= rows_before);
            }
            while d < comps.parts.len() && !entered_collapsed
                invariant
                    closed_dirs == path_set(self.collapsed@),
                    common <= d <= comps.parts.len(),
                    entered_collapsed ==> d < comps.parts.len(),
                    forall|j: int|
                        0 <= j < d ==> !closed_dirs.contains(#[trigger] comps@.take(j + 1)),
                    entered_collapsed ==> closed_dirs.contains(comps@.take(d + 1)),
                    match skip_under {
                        Some(s) => entered_collapsed && s@ == comps@.take(d + 1),
                        None => !entered_collapsed,
                    },
                    row_views(rows@) == rows_before + (if entered_collapsed {
                        open_headers(comps@, common as int, d as int).push(
                            RowView::Header {
                                depth: d as int,
                                name: comps@[d as int],
                                collapsed: true,
                            },
                        )
                    } else {
                        open_headers(comps@, common as int, d as int)
                    }),
                decreases
                        comps.parts.len() - d,
                        if entered_collapsed {
                            0int
                        } else {
                            1int
                        },
            {
                let path: TreePath = comps.prefix(d + 1);
                let collapsed: bool = holds(&self.collapsed, &path);
                let ghost was = rows@;
                rows.push(TreeRow::Header { depth: d, name: comps.parts[d].clone(), collapsed });
                proof {
                    assert(row_views(rows@) =~= row_views(was).push(
                        RowView::Header { depth: d as int, name: comps@[d as int], collapsed },
                    ));
                }
                if collapsed {
                    skip_under = Some(path);
                    entered_collapsed = true;
                    proof {
                        assert(row_views(rows@) =~= rows_before + open_headers(
                            comps@,
                            common as int,
                            d as int,
                        ).push(
                            RowView::Header {
                                depth: d as int,
                                name: comps@[d as int],
                                collapsed: true,
                            },
                        ));
                    }
                } else {
                    d += 1;
                    proof {
                        assert(row_views(rows@) =~= rows_before + open_headers(
                            comps@,
                            common as int,
                            d as int,
                        ));
                    }
                }
            }
            proof {
                lemma_new_headers(comps@, closed_dirs, cut, common as int, d as int);
                if entered_collapsed {
                    let s = comps@.take(d + 1);
                    assert forall|j: int| 0 <= j < s.len() - 1 implies !closed_dirs.contains(
                        #[trigger] s.take(j + 1),
                    ) by {
                        assert(s.take(j + 1) =~= comps@.take(j + 1));
                    }
                    assert(s =~= comps@.subrange(0, s.len() as int));
                }
            }
            let depth: usize = comps.parts.len();
            prev = comps;
            k += 1;
            if entered_collapsed {
                continue ;
            }
            let ghost was = rows@;
            rows.push(TreeRow::Task { vis: visible.len(), depth });
            proof {
                assert(row_views(rows@) =~= row_views(was).push(
                    RowView::Task { vis: visible@.len() as int, depth: depth as int },
                ));
            }
            visible.push(i);
        }
        (visible, rows)
    }
}


impl App {
    /// The directories that are collapsed are told apart, and the store holds
    /// together.
    pub open spec fn wf(&self) -> bool {
        &&& self.store.wf()
        &&& self.jump.wf()
        &&& all_distinct(self.collapsed@)
    }

    /// An application over a tree of task files, on its first task.
    pub fn new(store: TreeStore) -> (r: App)
        requires
            store.wf(),
        ensures
            r.wf(),
            r@ == (AppView {
                view: types::View::List,
                filter: filter::FilterView { search: Seq::empty(), project: None, context: None },
                prefs: Prefs { sort: Sort::File, show_done: true, show_future: false },
                store: store@,
                cursor: 0,
                list_cursor: 0,
                archive_cursor: 0,
                draft: Seq::empty(),
                draft_cursor: 0,
                jump: jump::JumpView {
                    prior: types::Mode::Normal,
                    cursor: 0,
                    candidates: Seq::empty(),
                    hits: Seq::empty(),
                },
                visible: Seq::empty(),
                groups: Seq::empty(),
                rows: Seq::empty(),
                collapsed: Set::empty(),
                message: None,
            }).recomputed(),
    {
        let mut app = App {
            view: types::View::List,
            filter: Filter::default(),
            prefs: Prefs::default(),
            store,
            cursor: 0,
            list_cursor: 0,
            archive_cursor: 0,
            draft: Draft::default(),
            jump: JumpState::default(),
            visible_cache: Vec::new(),
            visible_groups: Vec::new(),
            tree_rows: Vec::new(),
            collapsed: Vec::new(),
            message: None,
        };
        proof {
            assert(app.draft.text@ =~= Seq::<char>::empty());
            assert(group_views(app.visible_groups@) =~= Seq::<GroupView>::empty());
            assert(row_views(app.tree_rows@) =~= Seq::<RowView>::empty());
            assert(path_set(app.collapsed@) =~= Set::<Seq<Seq<char>>>::empty());
        }
        app.recompute_visible();
        app
    }

    /// Indices into the active view's task source after filter and sort, in
    /// display order. The source is the archive in the archive view, the task
    /// list otherwise.
    pub fn visible_indices(&self) -> (r: &[usize])
        ensures
            r@ == self@.visible,
    {
        self.visible_cache.as_slice()
    }

    /// Group key per row, parallel to [`App::visible_indices`].
    pub fn visible_groups(&self) -> (r: &[GroupKey])
        ensures
            group_views(r@) == self@.groups,
    {
        self.visible_groups.as_slice()
    }

    /// Bring the visible list, its group keys and its rows up to date. Call
    /// after any change of filter, preferences, view, tasks or archive.
    pub fn recompute_visible(&mut self)
        requires
            old(self).wf(),
        ensures
            final(self).wf(),
            final(self)@ == old(self)@.recomputed(),
    {
        match self.view {
            types::View::List => self.rebuild_list_cache(),
            types::View::Archive => self.rebuild_archive_cache(),
        }
    }

    /// The tasks that pass the filter, in the order of the preferences.
    fn filtered(&self) -> (idxs: Vec<usize>)
        requires
            self.wf(),
        ensures
            idxs@ == self@.list_order(),
            forall|p: int| 0 <= p < idxs@.len() ==> (#[trigger] idxs@[p]) < self@.lines().len(),
    {
        let needle: Option<&str> = if self.filter.search.as_str().is_empty() {
            None
        } else {
            Some(self.filter.search.as_str())
        };
        let tasks = self.store.tasks();
        let today = self.store.today();
        let ghost lines = self@.lines();
        let mut keep: Vec<bool> = Vec::new();
        let mut keys: Vec<u64> = Vec::new();
        let mut i: usize = 0;
        while i < tasks.len()
            invariant
                todo::tasks_wf(tasks@),
                todo::raws(tasks@) == lines,
                lines == self@.lines(),
                today@ == self.store@.today,
                filter::opt_str(needle) == self@.needle(),
                i <= tasks@.len(),
                keep@ == self@.listed().take(i as int),
                keys@ == self@.sort_ranks().take(i as int),
            decreases tasks.len() - i,
        {
            proof {
                assert(lines[i as int] == tasks@[i as int].raw@);
            }
            keep.push(
                list_predicate(
                    &tasks[i],
                    self.prefs.show_done,
                    self.prefs.show_future,
                    today,
                    &self.filter,
                    needle,
                ),
            );
            keys.push(sort_key(&tasks[i], self.prefs.sort));
            proof {
                assert(keep@ =~= self@.listed().take(i + 1));
                assert(keys@ =~= self@.sort_ranks().take(i + 1));
            }
            i += 1;
        }
        proof {
            assert(keep@ =~= self@.listed());
            assert(keys@ =~= self@.sort_ranks());
        }
        let idxs: Vec<usize> = listing(&keep, &keys);
        proof {
            order::lemma_listing_of(idxs@, keep@, keys@);
        }
        idxs
    }

    fn rebuild_list_cache(&mut self)
        requires
            old(self).wf(),
        ensures
            final(self).wf(),
            final(self)@ == old(self)@.with_list(),
    {
        let idxs: Vec<usize> = self.filtered();
        let mut groups: Vec<GroupKey> = Vec::new();
        if self.is_tree_mode() {
            let (visible, rows) = self.build_tree_rows(&idxs);
            while groups.len() < visible.len()
                invariant
                    groups@.len() <= visible@.len(),
                    forall|p: int|
                        0 <= p < groups@.len() ==> group_view(#[trigger] groups@[p])
                            == GroupView::Plain,
                decreases visible.len() - groups.len(),
            {
                groups.push(GroupKey::Plain);
            }
            self.visible_groups = groups;
            self.visible_cache = visible;
            self.tree_rows = rows;
            proof {
                assert(self@ =~= old(self)@.with_list());
            }
            return ;
        }
        let tasks = self.store.tasks();
        let today = self.store.today();
        let ghost lines = self@.lines();
        let mut p: usize = 0;
        while p < idxs.len()
            invariant
                todo::tasks_wf(tasks@),
                todo::raws(tasks@) == lines,
                today@ == self.store@.today,
                forall|q: int| 0 <= q < idxs@.len() ==> (#[trigger] idxs@[q]) < lines.len(),
                p <= idxs.len(),
                groups@.len() == p,
                forall|q: int|
                    0 <= q < p ==> group_view(#[trigger] groups@[q]) == list_group(
                        lines[idxs@[q] as int],
                        self.prefs.sort,
                        self.store@.today,
                    ),
            decreases idxs.len() - p,
        {
            let task = &tasks[idxs[p]];
            proof {
                assert(lines[idxs@[p as int] as int] == task.raw@);
            }
            let group = match self.prefs.sort {
                Sort::File => GroupKey::Plain,
                Sort::Priority => GroupKey::ListPriority(task.priority),
                Sort::Due => GroupKey::ListDue(due_bucket(task, today)),
            };
            groups.push(group);
            p += 1;
        }
        self.visible_groups = groups;
        self.visible_cache = idxs;
        self.tree_rows = Vec::new();
        proof {
            assert(self@ =~= old(self)@.with_list());
        }
    }

    pub fn tree_rows(&self) -> (r: &[TreeRow])
        ensures
            row_views(r@) == self@.rows,
    {
        self.tree_rows.as_slice()
    }

    /// Collapse (or expand) the directory of the task under the cursor. Root
    /// tasks have no directory to collapse.
    pub fn toggle_collapse_current(&mut self)
        requires
            old(self).wf(),
        ensures
            final(self).wf(),
            final(self)@ == old(self)@.collapse_toggled(),
    {
        if !self.is_tree_mode() {
            return ;
        }
        let abs: usize = match self.cur_abs() {
            Some(abs) => abs,
            None => return ,
        };
        let area: TreePath = self.store.area(abs);
        if area.is_empty() {
            self.flash("root tasks have no folder to collapse");
            return ;
        }
        let ghost was = self.collapsed@;
        if !take_out(&mut self.collapsed, &area) {
            proof {
                assert(path_set(was).remove(area@) =~= path_set(was));
            }
            let ghost mid = self.collapsed@;
            self.collapsed.push(area);
            proof {
                lemma_pushed(mid, area);
                assert(self@ =~= (AppView {
                    collapsed: old(self)@.collapsed.insert(area@),
                    ..old(self)@
                }));
            }
        } else {
            proof {
                assert(self@ =~= (AppView {
                    collapsed: old(self)@.collapsed.remove(area@),
                    ..old(self)@
                }));
            }
        }
        self.recompute_visible();
        self.clamp_cursor();
    }

    /// Expand every collapsed directory.
    pub fn expand_all(&mut self)
        requires
            old(self).wf(),
        ensures
            final(self).wf(),
            final(self)@ == old(self)@.expanded(),
    {
        if self.collapsed.is_empty() {
            proof {
                assert(path_set(self.collapsed@) =~= Set::<Seq<Seq<char>>>::empty());
            }
            return ;
        }
        proof {
            assert(path_set(self.collapsed@).contains(self.collapsed@[0]@));
        }
        self.collapsed.clear();
        proof {
            assert(path_set(self.collapsed@) =~= Set::<Seq<Seq<char>>>::empty());
            assert(self@ =~= (AppView { collapsed: Set::empty(), ..old(self)@ }));
        }
        self.recompute_visible();
        self.clamp_cursor();
    }

    fn rebuild_archive_cache(&mut self)
        requires
            old(self).wf(),
        ensures
            final(self).wf(),
            final(self)@ == old(self)@.with_archive(),
    {
        let archive = self.store.archive();
        let tasks = archive.tasks();
        let ghost lines = self@.archived();
        let mut keep: Vec<bool> = Vec::new();
        let mut keys: Vec<DoneDay> = Vec::new();
        let mut i: usize = 0;
        while i < tasks.len()
            invariant
                todo::tasks_wf(tasks@),
                todo::raws(tasks@) == lines,
                i <= tasks@.len(),
                keep@ == every(i as nat),
                keys@.len() == i,
                forall|k: int| 0 <= k < i ==> (#[trigger] keys@[k]).day@ == done_on(lines[k]),
            decreases tasks.len() - i,
        {
            proof {
                assert(lines[i as int] == tasks@[i as int].raw@);
            }
            let day: String = match &tasks[i].done_date {
                Some(d) => d.clone(),
                None => String::new(),
            };
            proof {
                assert(day@ =~= done_on(lines[i as int]));
            }
            keep.push(true);
            keys.push(DoneDay { day });
            proof {
                assert(keep@ =~= every((i + 1) as nat));
            }
            i += 1;
        }
        let idxs: Vec<usize> = listing(&keep, &keys);
        proof {
            lemma_newest_first(idxs@, keys@, lines);
        }
        let mut groups: Vec<GroupKey> = Vec::new();
        let mut p: usize = 0;
        while p < idxs.len()
            invariant
                todo::tasks_wf(tasks@),
                todo::raws(tasks@) == lines,
                forall|q: int| 0 <= q < idxs@.len() ==> (#[trigger] idxs@[q]) < lines.len(),
                p <= idxs.len(),
                groups@.len() == p,
                forall|q: int|
                    0 <= q < p ==> group_view(#[trigger] groups@[q]) == archive_group(
                        lines[idxs@[q] as int],
                    ),
            decreases idxs.len() - p,
        {
            proof {
                assert(lines[idxs@[p as int] as int] == tasks@[idxs@[p as int] as int].raw@);
            }
            let date: String = match &tasks[idxs[p]].done_date {
                Some(d) => d.clone(),
                None => "unknown".to_owned(),
            };
            groups.push(GroupKey::ArchiveDate(date));
            p += 1;
        }
        self.visible_cache = idxs;
        self.visible_groups = groups;
        proof {
            assert(self@ =~= old(self)@.with_archive());
        }
    }

    /// The task under the cursor, as an index into the active view's source.
    pub fn cur_abs(&self) -> (r: Option<usize>)
        ensures
            r == self@.current(),
    {
        if self.cursor < self.visible_cache.len() {
            Some(self.visible_cache[self.cursor])
        } else {
            None
        }
    }

    /// Put the cursor back on the last row when it is past it.
    pub fn clamp_cursor(&mut self)
        ensures
            final(self)@ == old(self)@.clamped(),
            old(self).wf() ==> final(self).wf(),
    {
        let len: usize = self.visible_cache.len();
        if len == 0 {
            self.cursor = 0;
        } else if self.cursor >= len {
            self.cursor = len - 1;
        }
    }

    /// Move the cursor to wherever `abs` lives in the current visible list.
    /// Falls back to clamping if `abs` was filtered out.
    pub fn follow_cursor(&mut self, abs: usize)
        ensures
            final(self)@ == old(self)@.following(abs),
            old(self).wf() ==> final(self).wf(),
    {
        let mut pos: usize = 0;
        while pos < self.visible_cache.len()
            invariant
                *self == *old(self),
                pos <= self.visible_cache.len(),
                forall|k: int| 0 <= k < pos ==> self.visible_cache@[k] != abs,
            decreases self.visible_cache.len() - pos,
        {
            if self.visible_cache[pos] == abs {
                proof {
                    assert(self@.visible[pos as int] == abs);
                    self@.visible.index_of_first_ensures(abs);
                }
                self.cursor = pos;
                return ;
            }
            pos += 1;
        }
        self.clamp_cursor();
    }

    /// Whether the list is shown as a tree of directories.
    pub fn is_tree_mode(&self) -> (r: bool)
        ensures
            r == self@.is_tree_mode(),
    {
        !self.store.is_single_file()
    }

    /// Show a message.
    pub fn flash(&mut self, message: &str)
        ensures
            final(self)@ == (AppView { message: Some(message@), ..old(self)@ }),
            old(self).wf() ==> final(self).wf(),
    {
        self.message = Some(message.to_owned());
    }

    pub fn tasks(&self) -> (r: &[Task])
        requires
            self.wf(),
        ensures
            todo::tasks_wf(r@),
            todo::raws(r@) == self@.lines(),
    {
        self.store.tasks()
    }

    pub fn archive(&self) -> (r: &Archive)
        requires
            self.wf(),
        ensures
            r.wf(),
            r@.lines == self@.archived(),
            r@ == self@.store.stores[self@.store.root_index()].archive,
    {
        self.store.archive()
    }

    pub fn today(&self) -> (r: &str)
        ensures
            r@ == self@.store.today,
    {
        self.store.today()
    }

    /// Take over the current day; tells whether it is another one.
    pub fn refresh_today(&mut self, today: String) -> (changed: bool)
        requires
            old(self).wf(),
        ensures
            final(self).wf(),
            changed == old(self)@.store.on_another_day(today@),
            final(self)@ == old(self)@.on_day(today@),
    {
        let changed: bool = self.store.set_today(today);
        if changed {
            self.recompute_visible();
            self.clamp_cursor();
        }
        changed
    }

    /// Show another view, with the cursor where that view had it.
    pub fn set_view(&mut self, view: types::View)
        requires
            old(self).wf(),
        ensures
            final(self).wf(),
            final(self)@ == old(self)@.showing(view),
    {
        match self.view {
            types::View::List => {
                self.list_cursor = self.cursor;
            },
            types::View::Archive => {
                self.archive_cursor = self.cursor;
            },
        }
        self.view = view;
        self.recompute_visible();
        self.cursor = match view {
            types::View::List => self.list_cursor,
            types::View::Archive => self.archive_cursor,
        };
        self.clamp_cursor();
    }

    /// Start the draft over with a text.
    pub fn draft_set(&mut self, text: String)
        ensures
            final(self)@ == (AppView {
                draft: text@,
                draft_cursor: text@.len() as usize,
                ..old(self)@
            }),
            old(self).wf() ==> final(self).wf(),
    {
        self.draft.set(text);
    }

    /// The row of the visible list that the jump overlay points at.
    pub fn jump_row(&self) -> (r: Option<usize>)
        requires
            self.wf(),
        ensures
            match r {
                Some(row) => self@.jump_row() == Some(row as int),
                None => self@.jump_row() is None,
            },
    {
        let digits: Vec<char> = chars_of(self.draft.text());
        if digits.len() > 0 && is_number(&digits) {
            let last: usize = self.visible_cache.len();
            if last == 0 {
                return None;
            }
            let n: usize = number_up_to(&digits, last);
            if n == 0 {
                Some(0)
            } else {
                Some(n - 1)
            }
        } else {
            self.jump.current_target()
        }
    }

    /// Move the cursor to where the jump overlay points.
    pub fn confirm_jump(&mut self)
        requires
            old(self).wf(),
        ensures
            final(self).wf(),
            final(self)@ == old(self)@.jumped(),
    {
        if let Some(row) = self.jump_row() {
            self.cursor = row;
            self.clamp_cursor();
        }
    }

    /// Add the draft as a task of the root's own file.
    pub fn add_from_draft(&mut self) -> (r: AddOutcome)
        requires
            old(self).wf(),
        ensures
            final(self).wf(),
            (final(self)@, r) == old(self)@.draft_added(),
    {
        let out: AddOutcome = self.store.add_finalized(self.draft.text());
        match out {
            AddOutcome::Added => {
                self.draft = Draft::default();
                proof {
                    assert(self.draft.text@ =~= Seq::<char>::empty());
                }
            },
            _ => {},
        }
        self.recompute_visible();
        self.clamp_cursor();
        out
    }
}

/// The number that digits write, or `cap` when that is smaller.
fn number_up_to(digits: &Vec<char>, cap: usize) -> (r: usize)
    requires
        date::all_digits(digits@),
    ensures
        r == (if date::digits_value(digits@) < cap {
            date::digits_value(digits@)
        } else {
            cap as int
        }),
{
    let mut v: u128 = 0;
    let mut i: usize = 0;
    proof {
        assert(digits@.take(0) =~= Seq::<char>::empty());
    }
    while i < digits.len()
        invariant
            date::all_digits(digits@),
            i <= digits.len(),
            v <= cap,
            v == date::digits_value(digits@.take(i as int)) || v == cap
                && date::digits_value(digits@.take(i as int)) >= cap,
        decreases digits.len() - i,
    {
        proof {
            let next = digits@.take(i + 1);
            assert(next.drop_last() =~= digits@.take(i as int));
            assert(next.last() == digits@[i as int]);
            assert(date::is_digit(digits@[i as int]));
        }
        let d: u128 = (digits[i] as u32 - 48) as u128;
        let next: u128 = v * 10 + d;
        v = if next < cap as u128 {
            next
        } else {
            cap as u128
        };
        i += 1;
    }
    proof {
        assert(digits@.take(digits@.len() as int) =~= digits@);
    }
    v as usize
}

proof fn lemma_pushed(v: Seq<TreePath>, p: TreePath)
    requires
        all_distinct(v),
        !path_set(v).contains(p@),
    ensures
        all_distinct(v.push(p)),
        path_set(v.push(p)) == path_set(v).insert(p@),
{
    let w = v.push(p);
    assert(w[v.len() as int]@ == p@);
    assert forall|q: Seq<Seq<char>>| #[trigger] path_set(w).contains(q) == path_set(v).insert(
        p@,
    ).contains(q) by {
        if path_set(v).contains(q) {
            let k = choose|k: int| 0 <= k < v.len() && (#[trigger] v[k])@ == q;
            assert(w[k]@ == q);
        }
        if path_set(w).contains(q) {
            let k = choose|k: int| 0 <= k < w.len() && (#[trigger] w[k])@ == q;
            if k < v.len() {
                assert(v[k]@ == q);
            }
        }
    }
    assert(path_set(w) =~= path_set(v).insert(p@));
    assert forall|a: int, b: int| 0 <= a < b < w.len() implies (#[trigger] w[a])@ != (
    #[trigger] w[b])@ by {
        assert(w[a] == v[a]);
        if b < v.len() {
            assert(w[b] == v[b]);
        } else {
            assert(path_set(v).contains(v[a]@));
        }
    }
}

proof fn lemma_newest_first(out: Seq<usize>, keys: Seq<DoneDay>, lines: Seq<Seq<char>>)
    requires
        keys.len() == lines.len(),
        forall|k: int| 0 <= k < keys.len() ==> (#[trigger] keys[k]).day@ == done_on(lines[k]),
        order::is_listing(out, every(lines.len()), keys),
    ensures
        out == order::arrangement_of(every(lines.len()), newest_first(lines)),
{
    let keep = every(lines.len());
    let le = newest_first(lines);
    assert forall|p: int, q: int| 0 <= p < q < out.len() implies order::before(
        le,
        #[trigger] out[p] as int,
        #[trigger] out[q] as int,
    ) by {
        assert(order::ahead(keys, out[p] as int, out[q] as int));
        assert(out[p] < keep.len() && out[q] < keep.len());
        assert(keys[out[p] as int].day@ == done_on(lines[out[p] as int]));
        assert(keys[out[q] as int].day@ == done_on(lines[out[q] as int]));
    }
    assert(order::is_arranged(out, keep, le));
    order::arrangement_is_unique(out, order::arrangement_of(keep, le), keep, le);
}

} // verus!
