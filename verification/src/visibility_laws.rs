//! What holds of the visible list.
use crate::date;
use crate::date_laws;
use crate::filter;
use crate::filter_laws;
use crate::jump_laws;
use crate::line;
use crate::order;
use crate::panel;
use crate::text;
use crate::tree_laws;
use crate::types;
use crate::visibility;
use crate::visibility::{AppView, GroupView, RowView};
use vstd::prelude::*;

verus! {

proof fn lemma_first_collapsed_is(area: Seq<Seq<char>>, collapsed: Set<Seq<Seq<char>>>, d: int)
    requires
        0 <= d,
    ensures
        match visibility::first_collapsed(area, collapsed, d) {
            Some(n) => {
                &&& d <= n < area.len()
                &&& collapsed.contains(area.take(n + 1))
            },
            None => forall|k: int|
                d <= k < area.len() ==> !collapsed.contains(#[trigger] area.take(k + 1)),
        },
    decreases area.len() - d,
{
    if d < area.len() && !collapsed.contains(area.take(d + 1)) {
        lemma_first_collapsed_is(area, collapsed, d + 1);
    }
}

/// An area is hidden exactly when it, or a directory above it, is collapsed.
pub proof fn hidden_below_a_collapsed_directory(
    area: Seq<Seq<char>>,
    collapsed: Set<Seq<Seq<char>>>,
)
    ensures
        visibility::is_hidden(area, collapsed) <==> exists|k: int|
            0 <= k < area.len() && collapsed.contains(#[trigger] area.take(k + 1)),
{
    lemma_first_collapsed_is(area, collapsed, 0);
    if visibility::is_hidden(area, collapsed) {
        let n = visibility::first_collapsed(area, collapsed, 0)->0;
        assert(collapsed.contains(area.take(n + 1)));
    }
}

proof fn lemma_list_order(a: AppView)
    requires
        a.lines().len() <= usize::MAX,
    ensures
        order::is_listing(a.list_order(), a.listed(), a.sort_ranks()),
{
    order::listing_exists(a.listed(), a.sort_ranks());
}

proof fn lemma_unhidden(
    idxs: Seq<usize>,
    areas: Seq<Seq<Seq<char>>>,
    collapsed: Set<Seq<Seq<char>>>,
    k: nat,
)
    requires
        k <= idxs.len() == areas.len(),
    ensures
        forall|i: usize|
            #[trigger] visibility::unhidden(idxs, areas, collapsed, k).contains(i) <==> exists|
                p: int,
            |
                0 <= p < k && #[trigger] idxs[p] == i && !visibility::is_hidden(
                    areas[p],
                    collapsed,
                ),
    decreases k,
{
    if k > 0 {
        let shown = visibility::unhidden(idxs, areas, collapsed, k);
        let less = visibility::unhidden(idxs, areas, collapsed, (k - 1) as nat);
        lemma_unhidden(idxs, areas, collapsed, (k - 1) as nat);
        assert forall|i: usize| #[trigger] shown.contains(i) <==> exists|p: int|
            0 <= p < k && #[trigger] idxs[p] == i && !visibility::is_hidden(
                areas[p],
                collapsed,
            ) by {
            if shown.contains(i) {
                let q = choose|q: int| 0 <= q < shown.len() && shown[q] == i;
                if q < less.len() {
                    assert(less[q] == i);
                    assert(less.contains(i));
                } else {
                    assert(idxs[k - 1] == i);
                }
            }
            if exists|p: int|
                0 <= p < k && #[trigger] idxs[p] == i && !visibility::is_hidden(
                    areas[p],
                    collapsed,
                ) {
                let p = choose|p: int|
                    0 <= p < k && #[trigger] idxs[p] == i && !visibility::is_hidden(
                        areas[p],
                        collapsed,
                    );
                if p < k - 1 {
                    assert(less.contains(i));
                    let q = choose|q: int| 0 <= q < less.len() && less[q] == i;
                    assert(shown[q] == i);
                } else {
                    assert(shown[less.len() as int] == i);
                }
            }
        }
    }
}

/// The list view shows exactly the tasks that pass the filter and, in a tree,
/// lie in no collapsed directory.
pub proof fn list_shows_exactly_what_passes(a: AppView, i: usize)
    requires
        a.lines().len() <= usize::MAX,
    ensures
        a.with_list().visible.contains(i) <==> {
            &&& i < a.lines().len()
            &&& a.lists(a.lines()[i as int])
            &&& a.is_tree_mode() ==> !visibility::is_hidden(
                a.store.area_of(i as int),
                a.collapsed,
            )
        },
{
    lemma_list_order(a);
    let idxs = a.list_order();
    let areas = visibility::areas_of(a.store, idxs);
    lemma_unhidden(idxs, areas, a.collapsed, idxs.len());
    if i < a.lines().len() && a.lists(a.lines()[i as int]) {
        assert(a.listed()[i as int]);
        let p = choose|p: int| 0 <= p < idxs.len() && idxs[p] == i as int;
        assert(idxs[p] == i);
        assert(idxs.contains(i));
    }
    if idxs.contains(i) {
        let p = choose|p: int| 0 <= p < idxs.len() && idxs[p] == i;
        assert(idxs[p] < a.listed().len() && a.listed()[idxs[p] as int]);
    }
}

proof fn lemma_unhidden_is_ordered(
    idxs: Seq<usize>,
    areas: Seq<Seq<Seq<char>>>,
    collapsed: Set<Seq<Seq<char>>>,
    keys: Seq<u64>,
    k: nat,
)
    requires
        k <= idxs.len() == areas.len(),
        forall|p: int, q: int|
            0 <= p < q < idxs.len() ==> order::ahead(
                keys,
                #[trigger] idxs[p] as int,
                #[trigger] idxs[q] as int,
            ),
    ensures
        ({
            let shown = visibility::unhidden(idxs, areas, collapsed, k);
            forall|p: int, q: int|
                0 <= p < q < shown.len() ==> order::ahead(
                    keys,
                    #[trigger] shown[p] as int,
                    #[trigger] shown[q] as int,
                )
        }),
    decreases k,
{
    if k > 0 {
        let shown = visibility::unhidden(idxs, areas, collapsed, k);
        let less = visibility::unhidden(idxs, areas, collapsed, (k - 1) as nat);
        lemma_unhidden_is_ordered(idxs, areas, collapsed, keys, (k - 1) as nat);
        lemma_unhidden(idxs, areas, collapsed, (k - 1) as nat);
        assert forall|p: int, q: int| 0 <= p < q < shown.len() implies order::ahead(
            keys,
            #[trigger] shown[p] as int,
            #[trigger] shown[q] as int,
        ) by {
            if q < less.len() {
                assert(less[p] == shown[p] && less[q] == shown[q]);
            } else {
                assert(less[p] == shown[p]);
                assert(less.contains(shown[p]));
                let j = choose|j: int|
                    0 <= j < k - 1 && #[trigger] idxs[j] == shown[p] && !visibility::is_hidden(
                        areas[j],
                        collapsed,
                    );
                assert(order::ahead(keys, idxs[j] as int, idxs[k - 1] as int));
            }
        }
    }
}

/// The list view is in the order of the preferences: by sort key, and tasks
/// with equal keys in file order.
pub proof fn list_is_in_order(a: AppView, p: int, q: int)
    requires
        a.lines().len() <= usize::MAX,
        0 <= p < q < a.with_list().visible.len(),
    ensures
        ({
            let shown = a.with_list().visible;
            let ranks = a.sort_ranks();
            ||| ranks[shown[p] as int] < ranks[shown[q] as int]
            ||| ranks[shown[p] as int] == ranks[shown[q] as int] && shown[p] < shown[q]
        }),
{
    lemma_list_order(a);
    let idxs = a.list_order();
    let areas = visibility::areas_of(a.store, idxs);
    lemma_unhidden_is_ordered(idxs, areas, a.collapsed, a.sort_ranks(), idxs.len());
    let shown = a.with_list().visible;
    assert(order::ahead(a.sort_ranks(), shown[p] as int, shown[q] as int));
}

proof fn lemma_archive_order(a: AppView)
    requires
        a.archived().len() <= usize::MAX,
    ensures
        order::is_arranged(
            a.archive_order(),
            visibility::every(a.archived().len()),
            visibility::newest_first(a.archived()),
        ),
{
    let lines = a.archived();
    let le = visibility::newest_first(lines);
    assert forall|x: int, y: int| #[trigger] le(x, y) || le(y, x) by {
        text::lemma_text_le_total(
            visibility::done_on(lines[x]),
            visibility::done_on(lines[y]),
        );
    }
    assert forall|x: int, y: int, z: int| #[trigger] le(x, y) && #[trigger] le(y, z) implies le(
        x,
        z,
    ) by {
        text::lemma_text_le_transitive(
            visibility::done_on(lines[z]),
            visibility::done_on(lines[y]),
            visibility::done_on(lines[x]),
        );
    }
    order::arrangement_exists(visibility::every(lines.len()), le);
}

/// The archive view shows every archived task and nothing else.
pub proof fn archive_shows_every_task(a: AppView, i: usize)
    requires
        a.archived().len() <= usize::MAX,
    ensures
        a.with_archive().visible.contains(i) <==> i < a.archived().len(),
{
    lemma_archive_order(a);
    let idxs = a.archive_order();
    let keep = visibility::every(a.archived().len());
    if i < a.archived().len() {
        assert(keep[i as int]);
        let p = choose|p: int| 0 <= p < idxs.len() && idxs[p] == i as int;
        assert(idxs[p] == i);
    }
}

/// The archive view shows the latest completed task first; tasks of one day
/// are in file order, and those without a day come last.
pub proof fn archive_is_newest_first(a: AppView, p: int, q: int)
    requires
        a.archived().len() <= usize::MAX,
        0 <= p < q < a.with_archive().visible.len(),
    ensures
        ({
            let shown = a.with_archive().visible;
            let first = visibility::done_on(a.archived()[shown[p] as int]);
            let second = visibility::done_on(a.archived()[shown[q] as int]);
            &&& text::text_le(second, first)
            &&& first == second ==> shown[p] < shown[q]
        }),
{
    lemma_archive_order(a);
    let shown = a.archive_order();
    assert(order::before(
        visibility::newest_first(a.archived()),
        shown[p] as int,
        shown[q] as int,
    ));
}

/// In the archive view no completion date is followed by a later one, as dates
/// of the calendar; lines of the same date keep the order of the file, and so
/// do the lines without a date, which come last.
pub proof fn archive_goes_back_in_the_calendar(a: AppView, p: int, q: int)
    requires
        a.archived().len() <= usize::MAX,
        0 <= p < q < a.with_archive().visible.len(),
    ensures
        ({
            let shown = a.with_archive().visible;
            let first = line::parts_of(a.archived()[shown[p] as int]).done_date;
            let second = line::parts_of(a.archived()[shown[q] as int]).done_date;
            &&& first is None ==> second is None
            &&& first == second ==> shown[p] < shown[q]
            &&& first matches Some(f) ==> date::date_in(f) is Some
            &&& second matches Some(s) ==> date::date_in(s) is Some
            &&& first is Some && second is Some ==> !date_laws::earlier(
                date::date_in(first->0)->0,
                date::date_in(second->0)->0,
            )
        }),
{
    archive_is_newest_first(a, p, q);
    let shown = a.with_archive().visible;
    let one = a.archived()[shown[p] as int];
    let other = a.archived()[shown[q] as int];
    let first = line::parts_of(one).done_date;
    let second = line::parts_of(other).done_date;
    if first is Some && second is Some {
        date_laws::written_dates_go_by_the_calendar(
            second->0,
            first->0,
            date::date_in(second->0)->0,
            date::date_in(first->0)->0,
        );
    }
}

/// Each row of the archive view is grouped under the completion date of its
/// line, or under `unknown`.
pub proof fn archive_rows_are_grouped_by_date(a: AppView, p: int)
    requires
        0 <= p < a.with_archive().visible.len(),
    ensures
        match line::parts_of(
            a.archived()[a.with_archive().visible[p] as int],
        ).done_date {
            Some(d) => a.with_archive().groups[p] == GroupView::ArchiveDate(d),
            None => a.with_archive().groups[p] == GroupView::ArchiveDate("unknown"@),
        },
{
}

/// There is one group key per visible row, in either view.
pub proof fn groups_run_parallel_to_rows(a: AppView)
    ensures
        a.recomputed().groups.len() == a.recomputed().visible.len(),
{
}

/// Unless the list is sorted by something, and in a tree, no row has a group.
pub proof fn file_order_has_no_groups(a: AppView, p: int)
    requires
        a.prefs.sort == types::Sort::File || a.is_tree_mode(),
        0 <= p < a.with_list().groups.len(),
    ensures
        a.with_list().groups[p] == GroupView::Plain,
{
}

/// Computing the visible list again changes nothing.
pub proof fn recompute_settles(a: AppView)
    ensures
        a.recomputed().recomputed() == a.recomputed(),
{
    let b = a.recomputed();
    assert(b.lines() == a.lines());
    assert(b.listed() =~= a.listed());
    assert(b.sort_ranks() =~= a.sort_ranks());
    assert(b.recomputed() =~= b);
}

/// After clamping, a list that is not empty has a current task.
pub proof fn clamped_cursor_is_on_a_row(a: AppView)
    requires
        a.visible.len() <= usize::MAX,
    ensures
        a.visible.len() > 0 ==> a.clamped().current() is Some,
        a.visible.len() == 0 ==> a.clamped().cursor == 0,
        a.clamped().clamped() == a.clamped(),
        a.cursor < a.visible.len() ==> a.clamped() == a,
{
}

/// Following a task that is shown lands on it.
pub proof fn following_lands_on_the_task(a: AppView, abs: usize)
    requires
        a.visible.len() <= usize::MAX,
        a.visible.contains(abs),
    ensures
        a.following(abs).current() == Some(abs),
{
    a.visible.index_of_first_ensures(abs);
}

/// Going to the archive and back keeps the cursor of a list that is up to
/// date.
pub proof fn cursor_survives_a_look_at_the_archive(a: AppView)
    requires
        a.view == types::View::List,
        a.visible == a.recomputed().visible,
        a.cursor < a.visible.len(),
    ensures
        a.showing(types::View::Archive).showing(types::View::List).cursor == a.cursor,
        a.showing(types::View::Archive).showing(types::View::List).visible == a.visible,
{
    let b = a.showing(types::View::Archive);
    assert(b.list_cursor == a.cursor);
    assert(b.lines() == a.lines());
    let parked = AppView {
        view: types::View::List,
        archive_cursor: b.cursor,
        ..b
    };
    assert(parked.listed() =~= a.listed());
    assert(parked.sort_ranks() =~= a.sort_ranks());
    assert(parked.with_list().visible == a.with_list().visible);
}

/// Taking over the day that every store has already changes nothing.
pub proof fn same_day_changes_nothing(a: AppView, today: Seq<char>)
    requires
        !a.store.on_another_day(today),
    ensures
        a.on_day(today) == a,
{
    let s = a.store.on_day(today);
    assert(s.stores =~= a.store.stores);
    assert(s =~= a.store);
}

proof fn lemma_nothing_hidden(idxs: Seq<usize>, areas: Seq<Seq<Seq<char>>>, k: nat)
    requires
        k <= idxs.len() == areas.len(),
    ensures
        visibility::unhidden(idxs, areas, Set::empty(), k) == idxs.take(k as int),
    decreases k,
{
    if k > 0 {
        lemma_nothing_hidden(idxs, areas, (k - 1) as nat);
        hidden_below_a_collapsed_directory(areas[k - 1], Set::empty());
        assert(idxs.take(k as int) =~= idxs.take(k - 1).push(idxs[k - 1]));
    } else {
        assert(idxs.take(0) =~= Seq::<usize>::empty());
    }
}

/// With every directory expanded the list shows all tasks that pass the
/// filter.
pub proof fn expanding_shows_every_listed_task(a: AppView)
    requires
        a.collapsed == Set::<Seq<Seq<char>>>::empty(),
    ensures
        a.with_list().visible == a.list_order(),
{
    let idxs = a.list_order();
    lemma_nothing_hidden(idxs, visibility::areas_of(a.store, idxs), idxs.len());
    assert(idxs.take(idxs.len() as int) =~= idxs);
}

/// Collapsing the current task's directory takes the task, and every other
/// task of that directory, out of the list.
pub proof fn collapsing_hides_the_directory(a: AppView, i: usize)
    requires
        a.view == types::View::List,
        a.is_tree_mode(),
        a.lines().len() <= usize::MAX,
        a.current() is Some,
        ({
            let area = a.store.area_of(a.current()->0 as int);
            &&& area.len() > 0
            &&& !a.collapsed.contains(area)
            &&& area.is_prefix_of(a.store.area_of(i as int))
        }),
    ensures
        !a.collapse_toggled().visible.contains(i),
{
    let area = a.store.area_of(a.current()->0 as int);
    let own = a.store.area_of(i as int);
    let b = AppView { collapsed: a.collapsed.insert(area), ..a };
    assert(own.take(area.len() as int) =~= area);
    assert(own.take((area.len() - 1) + 1) == area);
    hidden_below_a_collapsed_directory(own, b.collapsed);
    assert(b.lines() == a.lines());
    list_shows_exactly_what_passes(b, i);
}

/// Which task of the visible list a row is for.
pub open spec fn task_rows(rows: Seq<RowView>) -> Seq<int>
    decreases rows.len(),
{
    if rows.len() == 0 {
        Seq::empty()
    } else {
        match rows.last() {
            RowView::Task { vis, .. } => task_rows(rows.drop_last()).push(vis),
            RowView::Header { .. } => task_rows(rows.drop_last()),
        }
    }
}

proof fn lemma_headers_hold_no_tasks(rows: Seq<RowView>, heads: Seq<RowView>)
    requires
        forall|i: int| 0 <= i < heads.len() ==> #[trigger] heads[i] is Header,
    ensures
        task_rows(rows + heads) == task_rows(rows),
    decreases heads.len(),
{
    if heads.len() == 0 {
        assert(rows + heads =~= rows);
    } else {
        lemma_headers_hold_no_tasks(rows, heads.drop_last());
        assert((rows + heads).drop_last() =~= rows + heads.drop_last());
        assert((rows + heads).last() == heads[heads.len() - 1]);
    }
}

proof fn lemma_task_rows(
    idxs: Seq<usize>,
    areas: Seq<Seq<Seq<char>>>,
    collapsed: Set<Seq<Seq<char>>>,
    k: nat,
)
    ensures
        task_rows(visibility::rows_for(idxs, areas, collapsed, k)) == Seq::new(
            visibility::unhidden(idxs, areas, collapsed, k).len(),
            |i: int| i,
        ),
    decreases k,
{
    if k > 0 {
        lemma_task_rows(idxs, areas, collapsed, (k - 1) as nat);
        let rows = visibility::rows_for(idxs, areas, collapsed, (k - 1) as nat);
        let area = areas[k - 1];
        let hidden = visibility::is_hidden(area, collapsed);
        let heads = visibility::headers(
            visibility::part_before(areas, collapsed, k - 1),
            visibility::shown_part(area, collapsed),
            hidden,
        );
        lemma_headers_hold_no_tasks(rows, heads);
        let all = visibility::rows_for(idxs, areas, collapsed, k);
        if !hidden {
            assert(all.drop_last() =~= rows + heads);
        }
    }
    assert(task_rows(visibility::rows_for(idxs, areas, collapsed, k)) =~= Seq::new(
        visibility::unhidden(idxs, areas, collapsed, k).len(),
        |i: int| i,
    ));
}

/// In a tree, every visible task has one row of its own, and the rows of tasks
/// are in the order of the visible list.
pub proof fn every_visible_task_has_one_row(a: AppView)
    requires
        a.is_tree_mode(),
    ensures
        task_rows(a.with_list().rows) == Seq::new(a.with_list().visible.len(), |i: int| i),
{
    let idxs = a.list_order();
    lemma_task_rows(idxs, visibility::areas_of(a.store, idxs), a.collapsed, idxs.len());
}

/// The directory that the headers among the rows have led to.
pub open spec fn directory_after(rows: Seq<RowView>) -> Seq<Seq<char>>
    decreases rows.len(),
{
    if rows.len() == 0 {
        Seq::empty()
    } else {
        match rows.last() {
            RowView::Header { depth, name, .. } => directory_after(rows.drop_last()).take(
                depth,
            ).push(name),
            RowView::Task { .. } => directory_after(rows.drop_last()),
        }
    }
}

proof fn lemma_shared(a: Seq<Seq<char>>, b: Seq<Seq<char>>, i: int)
    requires
        0 <= i <= a.len(),
        i <= b.len(),
    ensures
        ({
            let n = visibility::shared_from(a, b, i);
            &&& i <= n <= a.len()
            &&& n <= b.len()
            &&& forall|k: int| i <= k < n ==> a[k] == b[k]
        }),
    decreases a.len() - i,
{
    if i < a.len() && i < b.len() && a[i] == b[i] {
        lemma_shared(a, b, i + 1);
    }
}

/// The first `j` headers of `now` after rows that led to `at`.
proof fn lemma_directory_of_headers(
    rows: Seq<RowView>,
    cut: Seq<Seq<char>>,
    now: Seq<Seq<char>>,
    hidden: bool,
    j: int,
)
    requires
        cut.is_prefix_of(directory_after(rows)),
        0 <= j <= visibility::headers(cut, now, hidden).len(),
    ensures
        j == 0 ==> directory_after(rows + visibility::headers(cut, now, hidden).take(j))
            == directory_after(rows),
        j > 0 ==> directory_after(rows + visibility::headers(cut, now, hidden).take(j))
            == now.take(visibility::shared(cut, now) + j),
    decreases j,
{
    lemma_shared(cut, now, 0);
    let heads = visibility::headers(cut, now, hidden);
    let from = visibility::shared(cut, now);
    let all = rows + heads.take(j);
    if j == 0 {
        assert(all =~= rows);
    } else {
        lemma_directory_of_headers(rows, cut, now, hidden, j - 1);
        assert(all.drop_last() =~= rows + heads.take(j - 1));
        assert(all.last() == heads[j - 1]);
        let before = directory_after(all.drop_last());
        if j == 1 {
            assert(before.take(from) =~= now.take(from)) by {
                assert forall|x: int| 0 <= x < from implies before[x] == now[x] by {
                    assert(before.subrange(0, cut.len() as int)[x] == before[x]);
                }
            }
        } else {
            assert(before.take(from + j - 1) =~= now.take(from + j - 1));
        }
        assert(now.take(from + j) =~= now.take(from + j - 1).push(now[from + j - 1]));
    }
}

/// The row at `r` of rows made of `rows`, headers and maybe a task.
proof fn lemma_directories(
    idxs: Seq<usize>,
    areas: Seq<Seq<Seq<char>>>,
    collapsed: Set<Seq<Seq<char>>>,
    k: nat,
)
    requires
        k <= idxs.len() == areas.len(),
    ensures
        ({
            let rows = visibility::rows_for(idxs, areas, collapsed, k);
            let shown = visibility::unhidden(idxs, areas, collapsed, k);
            &&& visibility::part_before(areas, collapsed, k as int).is_prefix_of(
                directory_after(rows),
            )
            &&& forall|r: int|
                0 <= r < rows.len() ==> (#[trigger] rows[r] matches RowView::Task { vis, depth }
                    ==> {
                    &&& 0 <= vis < shown.len()
                    &&& exists|p: int|
                        0 <= p < k && #[trigger] idxs[p] == shown[vis] && directory_after(
                            rows.take(r),
                        ).take(depth) == areas[p] && depth == areas[p].len()
                })
        }),
    decreases k,
{
    let rows = visibility::rows_for(idxs, areas, collapsed, k);
    let shown = visibility::unhidden(idxs, areas, collapsed, k);
    if k > 0 {
        let less = visibility::rows_for(idxs, areas, collapsed, (k - 1) as nat);
        let shown_less = visibility::unhidden(idxs, areas, collapsed, (k - 1) as nat);
        lemma_directories(idxs, areas, collapsed, (k - 1) as nat);
        let cut = visibility::part_before(areas, collapsed, k - 1);
        let area = areas[k - 1];
        let now = visibility::shown_part(area, collapsed);
        let hidden = visibility::is_hidden(area, collapsed);
        let heads = visibility::headers(cut, now, hidden);
        lemma_shared(cut, now, 0);
        lemma_directory_of_headers(less, cut, now, hidden, heads.len() as int);
        assert(heads.take(heads.len() as int) =~= heads);
        let led = directory_after(less + heads);
        assert(now.is_prefix_of(led)) by {
            if heads.len() == 0 {
                assert(now =~= cut.take(now.len() as int));
                assert forall|x: int| 0 <= x < now.len() implies now[x] == led.subrange(
                    0,
                    now.len() as int,
                )[x] by {
                    assert(cut[x] == directory_after(less).subrange(0, cut.len() as int)[x]);
                }
                assert(now =~= led.subrange(0, now.len() as int));
            } else {
                assert(now.take(now.len() as int) =~= now);
                assert(now =~= led.subrange(0, now.len() as int));
            }
        }
        if !hidden {
            assert(rows.drop_last() =~= less + heads);
        }
        assert forall|r: int| 0 <= r < rows.len() implies (#[trigger] rows[r] matches RowView::Task {
            vis,
            depth,
        } ==> {
            &&& 0 <= vis < shown.len()
            &&& exists|p: int|
                0 <= p < k && #[trigger] idxs[p] == shown[vis] && directory_after(
                    rows.take(r),
                ).take(depth) == areas[p] && depth == areas[p].len()
        }) by {
            if r < less.len() {
                assert(rows[r] == less[r]);
                assert(rows.take(r) =~= less.take(r));
                if let RowView::Task { vis, depth } = rows[r] {
                    assert(shown[vis] == shown_less[vis]);
                    let p = choose|p: int|
                        0 <= p < k - 1 && #[trigger] idxs[p] == shown_less[vis] && directory_after(
                            less.take(r),
                        ).take(depth) == areas[p] && depth == areas[p].len();
                    assert(idxs[p] == shown[vis]);
                }
            } else if r < less.len() + heads.len() {
                assert(rows[r] == heads[r - less.len()]);
            } else {
                assert(rows.take(r) =~= less + heads);
                assert(led.take(area.len() as int) =~= area) by {
                    assert(led.subrange(0, area.len() as int) =~= led.take(area.len() as int));
                }
                assert(idxs[k - 1] == shown[shown_less.len() as int]);
            }
        }
    }
}

/// In a tree, the headers above a task's row spell out the directory that the
/// task lies in, down to the row's depth.
pub proof fn headers_spell_out_the_directory(a: AppView, r: int, vis: int, depth: int)
    requires
        a.is_tree_mode(),
        0 <= r < a.with_list().rows.len(),
        a.with_list().rows[r] == (RowView::Task { vis, depth }),
    ensures
        0 <= vis < a.with_list().visible.len(),
        ({
            let area = a.store.area_of(a.with_list().visible[vis] as int);
            &&& directory_after(a.with_list().rows.take(r)).take(depth) == area
            &&& depth == area.len()
        }),
{
    let idxs = a.list_order();
    let areas = visibility::areas_of(a.store, idxs);
    lemma_directories(idxs, areas, a.collapsed, idxs.len());
    let rows = a.with_list().rows;
    let shown = a.with_list().visible;
    assert(rows[r] matches RowView::Task { .. });
    let p = choose|p: int|
        0 <= p < idxs.len() && #[trigger] idxs[p] == shown[vis] && directory_after(
            rows.take(r),
        ).take(depth) == areas[p] && depth == areas[p].len();
    assert(areas[p] == a.store.area_of(idxs[p] as int));
}

/// A number jumps to the row that it counts to, the first row being 1.
pub proof fn a_number_jumps_to_that_row(a: AppView, n: nat)
    requires
        a.draft == panel::decimal(n),
        1 <= n <= a.visible.len() <= usize::MAX,
    ensures
        a.jump_row() == Some(n - 1),
        a.jumped().cursor == n - 1,
        a.jumped().current() == Some(a.visible[n - 1]),
{
    panel::decimal_reads_back(n);
}

// ---- headers ----

/// The directory that the last of the rows is in.
pub open spec fn place_after(rows: Seq<RowView>) -> Seq<Seq<char>> {
    if rows.len() == 0 {
        Seq::empty()
    } else {
        match rows.last() {
            RowView::Header { .. } => directory_after(rows),
            RowView::Task { depth, .. } => directory_after(rows).take(depth),
        }
    }
}

/// The header at `r` opens a directory right below one that the row before it
/// is in and not one that it is in, and is marked exactly when that directory
/// is collapsed.
pub open spec fn is_fair_header(
    rows: Seq<RowView>,
    collapsed: Set<Seq<Seq<char>>>,
    r: int,
) -> bool {
    rows[r] matches RowView::Header { depth, name, collapsed: marked } ==> {
        let before = place_after(rows.take(r));
        let dir = directory_after(rows.take(r + 1));
        &&& 0 <= depth <= before.len()
        &&& dir == before.take(depth).push(name)
        &&& !dir.is_prefix_of(before)
        &&& marked <==> collapsed.contains(dir)
        &&& forall|x: int| 0 < x < dir.len() ==> !collapsed.contains(#[trigger] dir.take(x))
    }
}

proof fn lemma_shared_ends(a: Seq<Seq<char>>, b: Seq<Seq<char>>, i: int)
    requires
        0 <= i <= a.len(),
        i <= b.len(),
    ensures
        ({
            let n = visibility::shared_from(a, b, i);
            n == a.len() || n == b.len() || a[n] != b[n]
        }),
    decreases a.len() - i,
{
    if i < a.len() && i < b.len() && a[i] == b[i] {
        lemma_shared_ends(a, b, i + 1);
    }
}

/// `part` is as much of an area as is shown: nothing above it is collapsed, and
/// it is collapsed itself exactly when the area is hidden.
spec fn is_shown_part(part: Seq<Seq<char>>, collapsed: Set<Seq<Seq<char>>>, hidden: bool) -> bool {
    &&& forall|x: int| 0 < x < part.len() ==> !collapsed.contains(#[trigger] part.take(x))
    &&& hidden ==> part.len() > 0
    &&& part.len() > 0 ==> collapsed.contains(part) == hidden
}

proof fn lemma_first_is(area: Seq<Seq<char>>, collapsed: Set<Seq<Seq<char>>>, d: int)
    requires
        0 <= d,
        forall|x: int| 0 < x <= d ==> !collapsed.contains(#[trigger] area.take(x)),
        d <= area.len(),
    ensures
        match visibility::first_collapsed(area, collapsed, d) {
            Some(n) => {
                &&& d <= n < area.len()
                &&& collapsed.contains(area.take(n + 1))
                &&& forall|x: int| 0 < x <= n ==> !collapsed.contains(#[trigger] area.take(x))
            },
            None => forall|x: int|
                0 < x <= area.len() ==> !collapsed.contains(#[trigger] area.take(x)),
        },
    decreases area.len() - d,
{
    if d < area.len() && !collapsed.contains(area.take(d + 1)) {
        lemma_first_is(area, collapsed, d + 1);
    }
}

proof fn lemma_shown_part(area: Seq<Seq<char>>, collapsed: Set<Seq<Seq<char>>>)
    ensures
        is_shown_part(
            visibility::shown_part(area, collapsed),
            collapsed,
            visibility::is_hidden(area, collapsed),
        ),
        visibility::shown_part(area, collapsed).is_prefix_of(area),
        !visibility::is_hidden(area, collapsed) ==> visibility::shown_part(area, collapsed) == area,
{
    lemma_first_is(area, collapsed, 0);
    let part = visibility::shown_part(area, collapsed);
    assert(part =~= area.subrange(0, part.len() as int));
    assert(area.take(area.len() as int) =~= area);
    assert forall|x: int| 0 < x < part.len() implies !collapsed.contains(#[trigger] part.take(x)) by {
        assert(part.take(x) =~= area.take(x));
    }
}

proof fn lemma_fair_among_more(
    rows: Seq<RowView>,
    more: Seq<RowView>,
    collapsed: Set<Seq<Seq<char>>>,
    r: int,
)
    requires
        0 <= r < rows.len() <= more.len(),
        more.take(rows.len() as int) == rows,
        is_fair_header(rows, collapsed, r),
    ensures
        is_fair_header(more, collapsed, r),
{
    assert(more[r] == more.take(rows.len() as int)[r]);
    assert(more.take(r) =~= rows.take(r)) by {
        assert forall|i: int| 0 <= i < r implies more[i] == rows[i] by {
            assert(more[i] == more.take(rows.len() as int)[i]);
        }
    }
    assert(more.take(r + 1) =~= rows.take(r + 1)) by {
        assert forall|i: int| 0 <= i < r + 1 implies more[i] == rows[i] by {
            assert(more[i] == more.take(rows.len() as int)[i]);
        }
    }
}

/// The header `j` of those that follow `rows`, whose last is in `cut`.
proof fn lemma_new_header_is_fair(
    rows: Seq<RowView>,
    cut: Seq<Seq<char>>,
    now: Seq<Seq<char>>,
    collapsed: Set<Seq<Seq<char>>>,
    hidden: bool,
    j: int,
)
    requires
        cut.is_prefix_of(directory_after(rows)),
        place_after(rows) == cut,
        is_shown_part(now, collapsed, hidden),
        0 <= j < visibility::headers(cut, now, hidden).len(),
    ensures
        is_fair_header(
            rows + visibility::headers(cut, now, hidden),
            collapsed,
            rows.len() + j,
        ),
{
    let heads = visibility::headers(cut, now, hidden);
    let from = visibility::shared(cut, now);
    let all = rows + heads;
    let r = rows.len() + j;
    lemma_shared(cut, now, 0);
    lemma_shared_ends(cut, now, 0);
    lemma_directory_of_headers(rows, cut, now, hidden, j);
    lemma_directory_of_headers(rows, cut, now, hidden, j + 1);
    assert(all[r] == heads[j]);
    assert(all.take(r) =~= rows + heads.take(j));
    assert(all.take(r + 1) =~= rows + heads.take(j + 1));
    let before = place_after(all.take(r));
    let dir = directory_after(all.take(r + 1));
    assert(dir == now.take(from + j + 1));
    if j == 0 {
        assert(all.take(r) =~= rows);
        assert(before == cut);
        assert(cut.take(from) =~= now.take(from));
        if dir.is_prefix_of(cut) {
            assert(dir[from] == cut.subrange(0, dir.len() as int)[from]);
        }
    } else {
        assert(all.take(r).last() == heads[j - 1]);
        assert(before == now.take(from + j));
        assert(before.take(from + j) =~= before);
    }
    assert(dir =~= before.take(from + j).push(now[from + j]));
    if from + j + 1 == now.len() {
        assert(dir =~= now);
    }
    assert forall|x: int| 0 < x < dir.len() implies !collapsed.contains(
        #[trigger] dir.take(x),
    ) by {
        assert(dir.take(x) =~= now.take(x));
    }
}

/// The place after the rows for a task is as much of its area as is shown.
proof fn lemma_place_after(
    rows: Seq<RowView>,
    cut: Seq<Seq<char>>,
    now: Seq<Seq<char>>,
    collapsed: Set<Seq<Seq<char>>>,
    was_hidden: bool,
    hidden: bool,
    vis: int,
)
    requires
        cut.is_prefix_of(directory_after(rows)),
        place_after(rows) == cut,
        is_shown_part(cut, collapsed, was_hidden),
        is_shown_part(now, collapsed, hidden),
    ensures
        ({
            let both = rows + visibility::headers(cut, now, hidden);
            &&& hidden ==> place_after(both) == now
            &&& place_after(both.push(RowView::Task { vis, depth: now.len() as int })) == now
        }),
{
    let heads = visibility::headers(cut, now, hidden);
    let both = rows + heads;
    let task = both.push(RowView::Task { vis, depth: now.len() as int });
    lemma_shared(cut, now, 0);
    lemma_directory_of_headers(rows, cut, now, hidden, heads.len() as int);
    assert(heads.take(heads.len() as int) =~= heads);
    assert(task.drop_last() =~= both);
    if heads.len() == 0 {
        assert(both =~= rows);
        assert(now =~= cut.take(now.len() as int));
        if hidden && now.len() < cut.len() {
            assert(collapsed.contains(cut.take(now.len() as int)));
        }
        let led = directory_after(rows);
        assert(led.take(now.len() as int) =~= now) by {
            assert forall|x: int| 0 <= x < now.len() implies led[x] == now[x] by {
                assert(cut[x] == led.subrange(0, cut.len() as int)[x]);
            }
        }
        if hidden {
            assert(now =~= cut);
        }
    } else {
        assert(both.last() == heads[heads.len() - 1]);
        assert(now.take(now.len() as int) =~= now);
    }
}

proof fn lemma_headers_are_fair(
    idxs: Seq<usize>,
    areas: Seq<Seq<Seq<char>>>,
    collapsed: Set<Seq<Seq<char>>>,
    k: nat,
)
    requires
        k <= idxs.len() == areas.len(),
    ensures
        ({
            let rows = visibility::rows_for(idxs, areas, collapsed, k);
            &&& place_after(rows) == visibility::part_before(areas, collapsed, k as int)
            &&& forall|r: int|
                0 <= r < rows.len() ==> #[trigger] is_fair_header(rows, collapsed, r)
        }),
    decreases k,
{
    let rows = visibility::rows_for(idxs, areas, collapsed, k);
    if k > 0 {
        let less = visibility::rows_for(idxs, areas, collapsed, (k - 1) as nat);
        lemma_headers_are_fair(idxs, areas, collapsed, (k - 1) as nat);
        lemma_directories(idxs, areas, collapsed, (k - 1) as nat);
        let cut = visibility::part_before(areas, collapsed, k - 1);
        let area = areas[k - 1];
        let now = visibility::shown_part(area, collapsed);
        let hidden = visibility::is_hidden(area, collapsed);
        let was_hidden = k > 1 && visibility::is_hidden(areas[k - 2], collapsed);
        let heads = visibility::headers(cut, now, hidden);
        let both = less + heads;
        lemma_shown_part(area, collapsed);
        if k > 1 {
            lemma_shown_part(areas[k - 2], collapsed);
        }
        let vis = visibility::unhidden(idxs, areas, collapsed, (k - 1) as nat).len() as int;
        lemma_place_after(less, cut, now, collapsed, was_hidden, hidden, vis);
        assert(place_after(rows) == now);
        assert forall|r: int| 0 <= r < rows.len() implies #[trigger] is_fair_header(
            rows,
            collapsed,
            r,
        ) by {
            if r < less.len() {
                assert(is_fair_header(less, collapsed, r));
                assert(rows.take(less.len() as int) =~= less);
                lemma_fair_among_more(less, rows, collapsed, r);
            } else if r < both.len() {
                lemma_new_header_is_fair(less, cut, now, collapsed, hidden, r - less.len());
                assert(rows.take(both.len() as int) =~= both);
                lemma_fair_among_more(both, rows, collapsed, r);
            } else {
                assert(rows[r] is Task);
            }
        }
    } else {
        assert(rows.len() == 0);
    }
}

/// In a tree, a header opens a directory right below one that the row before it
/// is in, never one that it is in already, and is marked exactly when that
/// directory is collapsed; nothing below a collapsed directory has a header.
pub proof fn headers_open_new_directories(a: AppView, r: int)
    requires
        a.is_tree_mode(),
        0 <= r < a.with_list().rows.len(),
    ensures
        is_fair_header(a.with_list().rows, a.collapsed, r),
{
    let idxs = a.list_order();
    lemma_headers_are_fair(idxs, visibility::areas_of(a.store, idxs), a.collapsed, idxs.len());
}

proof fn lemma_hidden_has_header(
    idxs: Seq<usize>,
    areas: Seq<Seq<Seq<char>>>,
    collapsed: Set<Seq<Seq<char>>>,
    k: nat,
    p: int,
) -> (r: int)
    requires
        k <= idxs.len() == areas.len(),
        0 <= p < k,
        visibility::is_hidden(areas[p], collapsed),
    ensures
        ({
            let rows = visibility::rows_for(idxs, areas, collapsed, k);
            &&& 0 <= r < rows.len()
            &&& rows[r] is Header
            &&& rows[r]->collapsed
            &&& directory_after(rows.take(r + 1)) == visibility::shown_part(areas[p], collapsed)
        }),
    decreases k,
{
    let rows = visibility::rows_for(idxs, areas, collapsed, k);
    let less = visibility::rows_for(idxs, areas, collapsed, (k - 1) as nat);
    if p < k - 1 {
        let r = lemma_hidden_has_header(idxs, areas, collapsed, (k - 1) as nat, p);
        assert(rows[r] == less[r]);
        assert(rows.take(r + 1) =~= less.take(r + 1));
        r
    } else {
        let cut = visibility::part_before(areas, collapsed, k - 1);
        let area = areas[k - 1];
        let now = visibility::shown_part(area, collapsed);
        let heads = visibility::headers(cut, now, true);
        lemma_shown_part(area, collapsed);
        lemma_shared(cut, now, 0);
        lemma_directories(idxs, areas, collapsed, (k - 1) as nat);
        if heads.len() > 0 {
            let r = rows.len() - 1;
            lemma_directory_of_headers(less, cut, now, true, heads.len() as int);
            assert(heads.take(heads.len() as int) =~= heads);
            assert(rows.take(r + 1) =~= less + heads);
            assert(now.take(now.len() as int) =~= now);
            assert(rows[r] == heads[heads.len() - 1]);
            r
        } else {
            assert(now =~= cut.take(now.len() as int));
            assert(cut.len() > 0);
            assert(k > 1);
            lemma_shown_part(areas[k - 2], collapsed);
            if now.len() < cut.len() {
                assert(collapsed.contains(cut.take(now.len() as int)));
            }
            assert(now == cut);
            let r = lemma_hidden_has_header(idxs, areas, collapsed, (k - 1) as nat, k - 2);
            assert(rows =~= less);
            r
        }
    }
}

/// In a tree, a task that passes the filter but lies below a collapsed
/// directory still shows there: that directory has a marked header.
pub proof fn collapsed_directories_keep_their_header(a: AppView, i: usize) -> (r: int)
    requires
        a.is_tree_mode(),
        a.lines().len() <= usize::MAX,
        i < a.lines().len(),
        a.lists(a.lines()[i as int]),
        exists|x: int|
            0 < x <= a.store.area_of(i as int).len() && a.collapsed.contains(
                #[trigger] a.store.area_of(i as int).take(x),
            ),
    ensures
        0 <= r < a.with_list().rows.len(),
        a.with_list().rows[r] is Header,
        a.with_list().rows[r]->collapsed,
        directory_after(a.with_list().rows.take(r + 1)).is_prefix_of(a.store.area_of(i as int)),
{
    let idxs = a.list_order();
    let areas = visibility::areas_of(a.store, idxs);
    lemma_list_order(a);
    assert(a.listed()[i as int]);
    let p = choose|p: int| 0 <= p < idxs.len() && idxs[p] == i as int;
    let area = a.store.area_of(i as int);
    assert(areas[p] == area);
    let x = choose|x: int| 0 < x <= area.len() && a.collapsed.contains(#[trigger] area.take(x));
    hidden_below_a_collapsed_directory(area, a.collapsed);
    assert(a.collapsed.contains(area.take((x - 1) + 1)));
    lemma_shown_part(area, a.collapsed);
    lemma_hidden_has_header(idxs, areas, a.collapsed, idxs.len(), p)
}

// ---- the list, said of words and dates ----

/// The list shows a task exactly when nothing rules it out: that it is done or
/// counts only from a later day on, where such tasks are not shown; that it
/// lacks a word that is asked for; that the query does not occur in its body;
/// or that a directory on the way to it is collapsed.
pub proof fn the_list_leaves_out_nothing_else(a: AppView, i: usize)
    requires
        a.lines().len() <= usize::MAX,
        i < a.lines().len(),
    ensures
        ({
            let raw = a.lines()[i as int];
            let body = line::parts_of(raw).body;
            let area = a.store.area_of(i as int);
            a.with_list().visible.contains(i) <==> {
                &&& a.prefs.show_done || raw[3] == ' '
                &&& a.prefs.show_future || !(line::threshold_in(body) is Some && date::date_in(
                    a.store.today,
                ) is Some && date_laws::earlier(
                    date::date_in(a.store.today)->0,
                    line::threshold_in(body)->0,
                ))
                &&& filter::has_tag(body, '+', a.filter.project)
                &&& filter::has_tag(body, '@', a.filter.context)
                &&& a.filter.search.len() == 0 || exists|at: Seq<int>| #[trigger]
                    jump_laws::occurs_at(body, a.filter.search, at)
                &&& a.store.stores.len() == 1 || forall|x: int|
                    0 < x <= area.len() ==> !a.collapsed.contains(#[trigger] area.take(x))
            }
        }),
{
    let raw = a.lines()[i as int];
    let area = a.store.area_of(i as int);
    list_shows_exactly_what_passes(a, i);
    filter_laws::listed_lines(
        raw,
        a.prefs.show_done,
        a.prefs.show_future,
        a.store.today,
        a.filter,
        a.needle(),
    );
    hidden_below_a_collapsed_directory(area, a.collapsed);
    if visibility::is_hidden(area, a.collapsed) {
        let k = choose|k: int|
            0 <= k < area.len() && a.collapsed.contains(#[trigger] area.take(k + 1));
        assert(a.collapsed.contains(area.take(k + 1)));
    } else {
        assert forall|x: int| 0 < x <= area.len() implies !a.collapsed.contains(
            #[trigger] area.take(x),
        ) by {
            assert(area.take((x - 1) + 1) == area.take(x));
        }
    }
}

/// The list shows no task twice, and none that is not there.
pub proof fn the_list_shows_tasks_once(a: AppView, p: int, q: int)
    requires
        a.lines().len() <= usize::MAX,
        0 <= p < q < a.with_list().visible.len(),
    ensures
        a.with_list().visible[p] != a.with_list().visible[q],
        a.with_list().visible[p] < a.lines().len(),
{
    list_is_in_order(a, p, q);
    list_shows_exactly_what_passes(a, a.with_list().visible[p]);
}

/// By priority the list goes by the letter, by due date with the earlier date
/// first; tasks that have none come last, and those that are alike keep the
/// order of the files, which is the only order otherwise.
pub proof fn the_list_goes_by_letter_or_date(a: AppView, p: int, q: int)
    requires
        a.lines().len() <= usize::MAX,
        0 <= p < q < a.with_list().visible.len(),
    ensures
        ({
            let shown = a.with_list().visible;
            let (x, y) = (a.lines()[shown[p] as int], a.lines()[shown[q] as int]);
            match a.prefs.sort {
                types::Sort::File => shown[p] < shown[q],
                types::Sort::Priority => {
                    let (f, g) = (line::parts_of(x).priority, line::parts_of(y).priority);
                    &&& f is None ==> g is None
                    &&& f is Some && g is Some ==> f->0 <= g->0
                    &&& f == g ==> shown[p] < shown[q]
                },
                types::Sort::Due => {
                    let (f, g) = (
                        line::due_in(line::parts_of(x).body),
                        line::due_in(line::parts_of(y).body),
                    );
                    &&& f is None ==> g is None
                    &&& f is Some && g is Some ==> !date_laws::earlier(g->0, f->0)
                    &&& f == g ==> shown[p] < shown[q]
                },
            }
        }),
{
    list_is_in_order(a, p, q);
    let shown = a.with_list().visible;
    list_shows_exactly_what_passes(a, shown[p]);
    list_shows_exactly_what_passes(a, shown[q]);
    assert(shown.contains(shown[p]) && shown.contains(shown[q]));
    filter_laws::sort_keys_compare(a.lines()[shown[p] as int], a.lines()[shown[q] as int]);
    filter_laws::sort_keys_compare(a.lines()[shown[q] as int], a.lines()[shown[p] as int]);
}

/// In one file, a row is grouped by what the list is sorted by: the priority
/// letter, or when the task is due.
pub proof fn list_rows_are_grouped_by_the_order(a: AppView, p: int)
    requires
        !a.is_tree_mode(),
        0 <= p < a.with_list().visible.len(),
    ensures
        ({
            let raw = a.lines()[a.with_list().visible[p] as int];
            let group = a.with_list().groups[p];
            &&& a.prefs.sort == types::Sort::File ==> group == GroupView::Plain
            &&& a.prefs.sort == types::Sort::Priority ==> group == GroupView::ListPriority(
                line::parts_of(raw).priority,
            )
            &&& a.prefs.sort == types::Sort::Due ==> group == GroupView::ListDue(
                filter::bucket_of(raw, a.store.today),
            )
        }),
        a.with_list().rows.len() == 0,
{
}

/// More than one file is shown as a tree, one is not.
pub proof fn one_file_is_no_tree(a: AppView)
    ensures
        a.store.stores.len() == 1 ==> !a.is_tree_mode(),
        a.store.stores.len() > 1 ==> a.is_tree_mode(),
{
}

// ---- the cursor ----

/// A cursor past the last row goes to the last row, any other stays.
pub proof fn a_cursor_past_the_end_goes_to_the_last_row(a: AppView)
    requires
        a.visible.len() <= usize::MAX,
    ensures
        a.cursor < a.visible.len() ==> a.clamped().cursor == a.cursor,
        a.visible.len() > 0 && a.cursor >= a.visible.len() ==> a.clamped().cursor + 1
            == a.visible.len(),
        a.visible.len() == 0 ==> a.clamped().cursor == 0,
        a.clamped().visible == a.visible,
        a.clamped().store == a.store,
{
}

/// The current task is the one that the row under the cursor is for.
pub proof fn the_current_task_is_under_the_cursor(a: AppView)
    ensures
        match a.current() {
            Some(i) => a.cursor < a.visible.len() && a.visible[a.cursor as int] == i,
            None => a.cursor >= a.visible.len(),
        },
{
}

/// Following a task that is shown puts the cursor on its first row; one that is
/// not shown leaves the cursor, but for taking it back onto a row.
pub proof fn following_a_task(a: AppView, abs: usize)
    requires
        a.visible.len() <= usize::MAX,
    ensures
        a.visible.contains(abs) ==> ({
            let at = a.following(abs).cursor;
            &&& at < a.visible.len()
            &&& a.visible[at as int] == abs
            &&& forall|p: int| 0 <= p < at ==> #[trigger] a.visible[p] != abs
        }),
        !a.visible.contains(abs) && a.cursor < a.visible.len() ==> a.following(abs).cursor
            == a.cursor,
        !a.visible.contains(abs) && a.visible.len() > 0 && a.cursor >= a.visible.len()
            ==> a.following(abs).cursor + 1 == a.visible.len(),
{
    if a.visible.contains(abs) {
        a.visible.index_of_first_ensures(abs);
    }
}

/// Showing a view remembers the row of the view that is left, and goes to the
/// row that the other view was left on, or to its last.
pub proof fn views_remember_their_rows(a: AppView, view: types::View)
    requires
        a.recomputed().visible.len() <= usize::MAX,
        (AppView { view, ..a }).recomputed().visible.len() <= usize::MAX,
    ensures
        ({
            let b = a.showing(view);
            let kept = if view == a.view {
                a.cursor
            } else if view == types::View::List {
                a.list_cursor
            } else {
                a.archive_cursor
            };
            &&& b.view == view
            &&& a.view == types::View::List ==> b.list_cursor == a.cursor
            &&& a.view == types::View::Archive ==> b.archive_cursor == a.cursor
            &&& b.store == a.store && b.collapsed == a.collapsed && b.prefs == a.prefs && b.filter
                == a.filter
            &&& kept < b.visible.len() ==> b.cursor == kept
            &&& b.visible.len() > 0 && kept >= b.visible.len() ==> b.cursor + 1 == b.visible.len()
            &&& b.visible.len() == 0 ==> b.cursor == 0
        }),
{
    let b = a.showing(view);
    let parked = match a.view {
        types::View::List => AppView { list_cursor: a.cursor, ..a },
        types::View::Archive => AppView { archive_cursor: a.cursor, ..a },
    };
    let shown = AppView { view, ..parked }.recomputed();
    let plain = AppView { view, ..a }.recomputed();
    let other = AppView { view, ..a };
    let moved = AppView { view, ..parked };
    assert(moved.lines() == other.lines());
    assert(moved.listed() =~= other.listed());
    assert(moved.sort_ranks() =~= other.sort_ranks());
    assert(shown.visible == plain.visible);
}

/// Collapsing the directory of the current task puts it among the collapsed
/// ones, or takes it out again; a task of the root's own file has none, and a
/// message says so.
pub proof fn collapsing_marks_the_directory(a: AppView)
    requires
        a.is_tree_mode(),
        a.current() is Some,
    ensures
        ({
            let area = a.store.area_of(a.current()->0 as int);
            let b = a.collapse_toggled();
            &&& area.len() == 0 ==> b.collapsed == a.collapsed && b.message is Some && b.visible
                == a.visible
            &&& area.len() > 0 ==> (b.collapsed.contains(area) <==> !a.collapsed.contains(area))
            &&& area.len() > 0 ==> b.message == a.message
            &&& forall|other: Seq<Seq<char>>|
                other != area ==> (#[trigger] b.collapsed.contains(other)
                    <==> a.collapsed.contains(other))
            &&& b.store == a.store
            &&& area.len() > 0 ==> b.visible == (AppView {
                collapsed: b.collapsed,
                ..a
            }).recomputed().visible
            &&& area.len() > 0 && a.cursor < b.visible.len() ==> b.cursor == a.cursor
        }),
{
}

/// Outside a tree, or without a current task, nothing is collapsed.
pub proof fn nothing_to_collapse(a: AppView)
    requires
        !a.is_tree_mode() || a.current() is None,
    ensures
        a.collapse_toggled() == a,
{
}

/// Expanding everything leaves no directory collapsed.
pub proof fn expanding_opens_every_directory(a: AppView, dir: Seq<Seq<char>>)
    ensures
        !a.expanded().collapsed.contains(dir),
        a.expanded().store == a.store,
        a.collapsed.contains(dir) ==> a.expanded().visible == (AppView {
            collapsed: Set::empty(),
            ..a
        }).recomputed().visible,
{
    if a.collapsed.contains(dir) {
        assert(a.collapsed != Set::<Seq<Seq<char>>>::empty());
    }
}

/// A jump goes to the row that a number counts to, to the first row for zero,
/// to the last for a number past it, and otherwise to where the highlighted hit
/// points; without any of these the cursor stays.
pub proof fn a_jump_goes_where_it_says(a: AppView)
    requires
        a.visible.len() <= usize::MAX,
    ensures
        ({
            let numeric = a.draft.len() > 0 && forall|k: int|
                0 <= k < a.draft.len() ==> '0' <= #[trigger] a.draft[k] && a.draft[k] <= '9';
            let n = date::digits_value(a.draft);
            let hit = a.jump.cursor < a.jump.hits.len();
            &&& numeric && a.visible.len() == 0 ==> a.jump_row() is None
            &&& numeric && n == 0 && a.visible.len() > 0 ==> a.jumped().cursor == 0
            &&& numeric && 1 <= n <= a.visible.len() ==> a.jumped().cursor == n - 1
            &&& numeric && n > a.visible.len() > 0 ==> a.jumped().cursor == a.visible.len() - 1
            &&& !numeric && !hit ==> a.jumped() == a
            &&& !numeric && hit ==> ({
                let row =
                    a.jump.candidates[a.jump.hits[a.jump.cursor as int].cand as int].target;
                &&& row < a.visible.len() ==> a.jumped().cursor == row
                &&& row >= a.visible.len() > 0 ==> a.jumped().cursor == a.visible.len() - 1
            })
        }),
{
    if date::all_digits(a.draft) {
        assert forall|k: int| 0 <= k < a.draft.len() implies '0' <= #[trigger] a.draft[k]
            && a.draft[k] <= '9' by {
            assert(date::is_digit(a.draft[k]));
        }
        lemma_digits_count_up(a.draft);
    }
}

proof fn lemma_digits_count_up(s: Seq<char>)
    requires
        date::all_digits(s),
    ensures
        0 <= date::digits_value(s),
    decreases s.len(),
{
    if s.len() > 0 {
        assert forall|k: int| 0 <= k < s.drop_last().len() implies date::is_digit(
            #[trigger] s.drop_last()[k],
        ) by {
            assert(date::is_digit(s[k]));
        }
        lemma_digits_count_up(s.drop_last());
        assert(date::is_digit(s[s.len() - 1]));
    }
}

/// A draft that is added empties the draft; one that is not stays as it is.
pub proof fn an_added_draft_is_spent(a: AppView)
    ensures
        ({
            let (b, out) = a.draft_added();
            &&& b.store == a.store.add_task(a.draft).0
            &&& out == a.store.add_task(a.draft).1
            &&& out is Added ==> b.draft.len() == 0 && b.draft_cursor == 0
            &&& !(out is Added) ==> b.draft == a.draft && b.draft_cursor == a.draft_cursor
            &&& b.view == a.view
            &&& b.visible == (AppView { store: b.store, ..a }).recomputed().visible
            &&& a.cursor < b.visible.len() ==> b.cursor == a.cursor
        }),
{
    let (b, out) = a.draft_added();
    let plain = AppView { store: b.store, ..a };
    let spent = AppView { draft: Seq::empty(), draft_cursor: 0, ..plain };
    assert(spent.listed() =~= plain.listed());
    assert(spent.sort_ranks() =~= plain.sort_ranks());
}

/// On a new day the list is that of the new day; the tasks stay.
pub proof fn a_new_day_renews_the_list(a: AppView, today: Seq<char>)
    requires
        a.store.on_another_day(today),
    ensures
        ({
            let b = a.on_day(today);
            let fresh = AppView { store: a.store.on_day(today), ..a }.recomputed();
            &&& b.store == a.store.on_day(today)
            &&& b.visible == fresh.visible
            &&& b.groups == fresh.groups
            &&& b.rows == fresh.rows
            &&& b.store.today == today
            &&& b.view == a.view && b.filter == a.filter && b.collapsed == a.collapsed
        }),
{
}

/// The archive view leaves the rows of the tree, and what is collapsed, alone;
/// each view shows its own tasks.
pub proof fn views_show_their_own(a: AppView)
    ensures
        a.view == types::View::Archive ==> a.recomputed().rows == a.rows && a.recomputed().visible
            == a.with_archive().visible,
        a.view == types::View::List ==> a.recomputed().visible == a.with_list().visible
            && a.recomputed().rows == a.with_list().rows,
        a.recomputed().collapsed == a.collapsed,
        a.recomputed().cursor == a.cursor,
        a.recomputed().store == a.store,
{
}

/// The archive view shows the archive of the root's own `todo.md` where there is
/// such a file.
pub proof fn the_archive_is_that_of_the_root_file(a: AppView) -> (si: int)
    requires
        exists|i: int|
            0 <= i < a.store.stores.len() && (#[trigger] a.store.stores[i]).file.path
                == a.store.root.push("todo.md"@),
    ensures
        0 <= si < a.store.stores.len(),
        a.store.stores[si].file.path == a.store.root.push("todo.md"@),
        a.archived() == a.store.stores[si].archive.lines,
{
    tree_laws::the_root_file_is_todo_md_at_the_root(a.store);
    a.store.root_index()
}

} // verus!
