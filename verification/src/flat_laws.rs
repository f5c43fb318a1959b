//! What a change does to the flat list of tasks, position by position.
use crate::bulk_laws;
use crate::line;
use crate::line_laws;
use crate::outcome::{BulkCompleteOutcome, BulkDeleteOutcome, CompleteOutcome};
use crate::positions;
use crate::store::StoreView;
use crate::store_laws;
use crate::todo;
use crate::tree;
use crate::tree::TreeView;
use crate::tree_laws;
use vstd::prelude::*;

verus! {

/// The tree has as many files, and each as many lines, as the machine can count.
pub open spec fn is_countable(m: TreeView) -> bool {
    &&& 0 < m.stores.len() <= usize::MAX
    &&& forall|i: int|
        0 <= i < m.stores.len() ==> (#[trigger] m.stores[i]).lines.len() <= usize::MAX
}

proof fn lemma_flat_cut(stores: Seq<StoreView>, si: int)
    requires
        0 <= si < stores.len(),
    ensures
        tree::flat_lines(stores) == tree::flat_lines(stores.take(si)) + stores[si].lines
            + tree::flat_lines(stores.skip(si + 1)),
    decreases stores.len(),
{
    let n = stores.len() - 1;
    let less = stores.drop_last();
    if si == n {
        assert(stores.take(si) =~= less);
        assert(stores.skip(si + 1) =~= Seq::<StoreView>::empty());
        assert(tree::flat_lines(stores.skip(si + 1)) =~= Seq::<Seq<char>>::empty());
        assert(tree::flat_lines(stores) =~= tree::flat_lines(stores.take(si)) + stores[si].lines
            + tree::flat_lines(stores.skip(si + 1)));
    } else {
        lemma_flat_cut(less, si);
        assert(less.take(si) =~= stores.take(si));
        assert(less[si] == stores[si]);
        let tail = stores.skip(si + 1);
        assert(tail.drop_last() =~= less.skip(si + 1));
        assert(tail.last() == stores.last());
        assert(tree::flat_lines(stores) =~= tree::flat_lines(stores.take(si)) + stores[si].lines
            + tree::flat_lines(stores.skip(si + 1)));
    }
}

/// Where the task at `abs` of the flat list lies, and what surrounds it.
proof fn lemma_place(m: TreeView, abs: int) -> (at: (int, int))
    requires
        is_countable(m),
        m.located(abs) is Some,
    ensures
        0 <= at.0 < m.stores.len(),
        0 <= at.1 < m.stores[at.0].lines.len(),
        m.located(abs) == Some((at.0 as usize, at.1 as usize)),
        abs == tree::start_of(m.stores, at.0) + at.1,
        at.0 <= usize::MAX && at.1 <= usize::MAX,
{
    let (si, li) = m.located(abs)->0;
    tree::flat_list_mirrors_the_stores(m.stores, abs);
    tree::every_task_is_listed_once(m.stores, si as int, li as int);
    (si as int, li as int)
}

proof fn lemma_in_range(m: TreeView, abs: int)
    ensures
        m.located(abs) is Some <==> 0 <= abs < tree::flat_lines(m.stores).len(),
{
    tree::lemma_slots_len(m.stores);
}

/// A store put in another's place.
proof fn lemma_flat_with(m: TreeView, si: int, s: StoreView, changed: bool)
    requires
        0 <= si < m.stores.len(),
    ensures
        tree::flat_lines(m.stores) == tree::flat_lines(m.stores.take(si)) + m.stores[si].lines
            + tree::flat_lines(m.stores.skip(si + 1)),
        tree::flat_lines(m.with_store(si, s).noted(si, changed).stores) == tree::flat_lines(
            m.stores.take(si),
        ) + s.lines + tree::flat_lines(m.stores.skip(si + 1)),
{
    let after = m.with_store(si, s).noted(si, changed).stores;
    lemma_flat_cut(m.stores, si);
    lemma_flat_cut(after, si);
    assert(after.take(si) =~= m.stores.take(si));
    assert(after.skip(si + 1) =~= m.stores.skip(si + 1));
}

/// `after` is `before` without the element at `at`: what stood before it stays,
/// and what stood after it moves up.
pub open spec fn is_without<A>(after: Seq<A>, before: Seq<A>, at: int) -> bool {
    &&& 0 <= at < before.len()
    &&& after.len() == before.len() - 1
    &&& forall|i: int| 0 <= i < at ==> #[trigger] after[i] == before[i]
    &&& forall|i: int| at <= i < after.len() ==> #[trigger] after[i] == before[i + 1]
}

/// `after` is `before` but for the element at `at`.
pub open spec fn is_but_for<A>(after: Seq<A>, before: Seq<A>, at: int) -> bool {
    &&& 0 <= at < before.len()
    &&& after.len() == before.len()
    &&& forall|i: int| 0 <= i < before.len() && i != at ==> #[trigger] after[i] == before[i]
}

/// `after` is `before` with one more element at `at`: what stood there and after
/// it moves down.
pub open spec fn is_with_one_more<A>(after: Seq<A>, before: Seq<A>, at: int) -> bool {
    &&& 0 <= at <= before.len()
    &&& after.len() == before.len() + 1
    &&& forall|i: int| 0 <= i < at ==> #[trigger] after[i] == before[i]
    &&& forall|i: int| at < i < after.len() ==> #[trigger] after[i] == before[i - 1]
}

/// Deleting a task takes exactly that task out of the flat list.
pub proof fn delete_takes_out_that_task(m: TreeView, abs: int)
    requires
        is_countable(m),
        m.remove_at(abs).1 is Deleted,
    ensures
        is_without(
            tree::flat_lines(m.remove_at(abs).0.stores),
            tree::flat_lines(m.stores),
            abs,
        ),
{
    let (si, li) = lemma_place(m, abs);
    let s = m.stores[si];
    let t = s.remove(li).0;
    lemma_flat_with(m, si, t, true);
    let before = tree::flat_lines(m.stores);
    let after = tree::flat_lines(m.remove_at(abs).0.stores);
    let start = tree::start_of(m.stores, si);
    assert(t.lines =~= s.lines.remove(li));
    assert forall|i: int| abs <= i < after.len() implies #[trigger] after[i] == before[i + 1] by {
        if i - start < t.lines.len() {
            assert(after[i] == t.lines[i - start]);
        }
    }
}

/// The day that the file of a task has.
pub open spec fn day_of(m: TreeView, abs: int) -> Seq<char> {
    match m.located(abs) {
        Some((si, _)) => m.stores[si as int].today,
        None => m.today,
    }
}

/// A new priority changes exactly that task's line.
pub proof fn priority_changes_that_task(m: TreeView, abs: int)
    requires
        is_countable(m),
        m.prioritize_at(abs).1 is Changed,
    ensures
        is_but_for(
            tree::flat_lines(m.prioritize_at(abs).0.stores),
            tree::flat_lines(m.stores),
            abs,
        ),
        tree::flat_lines(m.prioritize_at(abs).0.stores)[abs] == line::reprioritized(
            tree::flat_lines(m.stores)[abs],
        ),
{
    let (si, li) = lemma_place(m, abs);
    let t = m.stores[si].prioritize(li).0;
    lemma_flat_with(m, si, t, true);
    let before = tree::flat_lines(m.stores);
    let after = tree::flat_lines(m.prioritize_at(abs).0.stores);
    let start = tree::start_of(m.stores, si);
    assert forall|i: int| 0 <= i < before.len() && i != abs implies #[trigger] after[i]
        == before[i] by {
        if start <= i < start + t.lines.len() {
            assert(after[i] == t.lines[i - start]);
        }
    }
    lemma_flat_cut(m.stores, si);
    assert(before[abs] == m.stores[si].lines[li]);
    assert(after[abs] == t.lines[li]);
}

/// An edit changes exactly that task's line.
pub proof fn edit_changes_that_task(m: TreeView, abs: int, text: Seq<char>)
    requires
        is_countable(m),
        m.edit_at(abs, text).1 is Edited,
    ensures
        is_but_for(
            tree::flat_lines(m.edit_at(abs, text).0.stores),
            tree::flat_lines(m.stores),
            abs,
        ),
        tree::flat_lines(m.edit_at(abs, text).0.stores)[abs] == line::normal_line(
            line::clean(text),
        ),
{
    let (si, li) = lemma_place(m, abs);
    let t = m.stores[si].edit(li, text).0;
    lemma_flat_with(m, si, t, true);
    let before = tree::flat_lines(m.stores);
    let after = tree::flat_lines(m.edit_at(abs, text).0.stores);
    let start = tree::start_of(m.stores, si);
    assert forall|i: int| 0 <= i < before.len() && i != abs implies #[trigger] after[i]
        == before[i] by {
        if start <= i < start + t.lines.len() {
            assert(after[i] == t.lines[i - start]);
        }
    }
    lemma_flat_cut(m.stores, si);
    assert(before[abs] == m.stores[si].lines[li]);
    assert(after[abs] == t.lines[li]);
}

/// A tag changes exactly that task's line.
pub proof fn tag_changes_that_task(m: TreeView, abs: int, sign: char, name: Seq<char>, toggle: bool)
    requires
        is_countable(m),
        m.retag_at(abs, sign, name, toggle).1 is Added || m.retag_at(abs, sign, name, toggle).1 is Removed,
    ensures
        is_but_for(
            tree::flat_lines(m.retag_at(abs, sign, name, toggle).0.stores),
            tree::flat_lines(m.stores),
            abs,
        ),
        m.retag_at(abs, sign, name, toggle).1 is Added ==> tree::flat_lines(
            m.retag_at(abs, sign, name, toggle).0.stores,
        )[abs] == tree::flat_lines(m.stores)[abs] + seq![' '] + line::tag_word(sign, name),
{
    let (si, li) = lemma_place(m, abs);
    let t = m.stores[si].retag(li, sign, name, toggle).0;
    store_laws::tagging(m.stores[si], li, sign, name, toggle);
    lemma_flat_with(m, si, t, true);
    let before = tree::flat_lines(m.stores);
    let after = tree::flat_lines(m.retag_at(abs, sign, name, toggle).0.stores);
    let start = tree::start_of(m.stores, si);
    assert forall|i: int| 0 <= i < before.len() && i != abs implies #[trigger] after[i]
        == before[i] by {
        if start <= i < start + t.lines.len() {
            assert(after[i] == t.lines[i - start]);
        }
    }
    lemma_flat_cut(m.stores, si);
    assert(before[abs] == m.stores[si].lines[li]);
    assert(after[abs] == t.lines[li]);
}

/// Opening a task again changes exactly that task's line.
pub proof fn reopening_changes_that_task(m: TreeView, abs: int)
    requires
        is_countable(m),
        m.toggle_at(abs).1 is Reopened,
    ensures
        is_but_for(
            tree::flat_lines(m.toggle_at(abs).0.stores),
            tree::flat_lines(m.stores),
            abs,
        ),
        tree::flat_lines(m.toggle_at(abs).0.stores)[abs] == line::reopened(
            tree::flat_lines(m.stores)[abs],
        ),
{
    let (si, li) = lemma_place(m, abs);
    let t = m.stores[si].toggle(li).0;
    lemma_flat_with(m, si, t, true);
    let before = tree::flat_lines(m.stores);
    let after = tree::flat_lines(m.toggle_at(abs).0.stores);
    let start = tree::start_of(m.stores, si);
    assert forall|i: int| 0 <= i < before.len() && i != abs implies #[trigger] after[i]
        == before[i] by {
        if start <= i < start + t.lines.len() {
            assert(after[i] == t.lines[i - start]);
        }
    }
    lemma_flat_cut(m.stores, si);
    assert(before[abs] == m.stores[si].lines[li]);
    assert(after[abs] == t.lines[li]);
}

/// Completing a task that does not recur changes exactly that task's line.
pub proof fn completing_changes_that_task(m: TreeView, abs: int)
    requires
        is_countable(m),
        m.toggle_at(abs).1 == (CompleteOutcome::Completed { spawned: false }),
    ensures
        is_but_for(
            tree::flat_lines(m.toggle_at(abs).0.stores),
            tree::flat_lines(m.stores),
            abs,
        ),
        tree::flat_lines(m.toggle_at(abs).0.stores)[abs] == line::completed(
            tree::flat_lines(m.stores)[abs],
            day_of(m, abs),
        ),
{
    let (si, li) = lemma_place(m, abs);
    let t = m.stores[si].toggle(li).0;
    lemma_flat_with(m, si, t, true);
    let before = tree::flat_lines(m.stores);
    let after = tree::flat_lines(m.toggle_at(abs).0.stores);
    let start = tree::start_of(m.stores, si);
    assert forall|i: int| 0 <= i < before.len() && i != abs implies #[trigger] after[i]
        == before[i] by {
        if start <= i < start + t.lines.len() {
            assert(after[i] == t.lines[i - start]);
        }
    }
    lemma_flat_cut(m.stores, si);
    assert(before[abs] == m.stores[si].lines[li]);
    assert(after[abs] == t.lines[li]);
}

/// Completing a task that recurs changes that task's line and puts one more task
/// at the end of its file; every other task stays.
pub proof fn recurring_task_adds_one_behind(m: TreeView, abs: int) -> (end: int)
    requires
        is_countable(m),
        m.toggle_at(abs).1 == (CompleteOutcome::Completed { spawned: true }),
    ensures
        abs < end,
        ({
            let before = tree::flat_lines(m.stores);
            let after = tree::flat_lines(m.toggle_at(abs).0.stores);
            &&& end <= before.len()
            &&& after.len() == before.len() + 1
            &&& forall|i: int| 0 <= i < end && i != abs ==> #[trigger] after[i] == before[i]
            &&& forall|i: int| end < i < after.len() ==> #[trigger] after[i] == before[i - 1]
            &&& after[abs] == line::completed(before[abs], day_of(m, abs))
            &&& Some(after[end]) == line::next_occurrence(before[abs], day_of(m, abs))
        }),
{
    let (si, li) = lemma_place(m, abs);
    let s = m.stores[si];
    let t = s.toggle(li).0;
    lemma_flat_with(m, si, t, true);
    let before = tree::flat_lines(m.stores);
    let after = tree::flat_lines(m.toggle_at(abs).0.stores);
    let start = tree::start_of(m.stores, si);
    let end = start + s.lines.len();
    assert forall|i: int| 0 <= i < end && i != abs implies #[trigger] after[i] == before[i] by {
        if start <= i {
            assert(after[i] == t.lines[i - start]);
        }
    }
    assert(after[end] == t.lines[s.lines.len() as int]);
    lemma_flat_cut(m.stores, si);
    assert(before[abs] == s.lines[li]);
    assert(after[abs] == t.lines[li]);
    end
}

/// A new task goes in at one place, behind every task of the root's own file;
/// every other task stays.
pub proof fn new_task_goes_in_behind_the_root_file(m: TreeView, text: Seq<char>) -> (at: int)
    requires
        is_countable(m),
        m.add_task(text).1 is Added,
    ensures
        is_with_one_more(
            tree::flat_lines(m.add_task(text).0.stores),
            tree::flat_lines(m.stores),
            at,
        ),
        at == tree::start_of(m.stores, m.root_index()) + m.stores[m.root_index()].lines.len(),
        tree::flat_lines(m.add_task(text).0.stores)[at] == line::normal_line(line::clean(text)),
{
    let si = m.root_index();
    tree_laws::lemma_store_over_range(m.stores, m.root_todo(), 0);
    let s = m.stores[si];
    let t = s.add(text).0;
    lemma_flat_with(m, si, t, true);
    let before = tree::flat_lines(m.stores);
    let after = tree::flat_lines(m.add_task(text).0.stores);
    let start = tree::start_of(m.stores, si);
    let at = start + s.lines.len();
    assert forall|i: int| 0 <= i < at implies #[trigger] after[i] == before[i] by {
        if start <= i {
            assert(after[i] == t.lines[i - start]);
        }
    }
    assert(after[at] == t.lines[s.lines.len() as int]);
    at
}

/// On a file that can be changed, every request that asks for something goes
/// through; a task that is not there is reported as such, and nothing else is.
pub proof fn requests_go_through(m: TreeView, abs: int, text: Seq<char>, sign: char, name: Seq<char>)
    requires
        is_countable(m),
        forall|i: int| 0 <= i < m.stores.len() ==> store_laws::is_ready(#[trigger] m.stores[i]),
        exists|i: int| 0 <= i < text.len() && !line_laws::is_white(#[trigger] text[i]),
    ensures
        0 <= abs < tree::flat_lines(m.stores).len() ==> {
            &&& m.remove_at(abs).1 is Deleted
            &&& m.prioritize_at(abs).1 is Changed
            &&& m.toggle_at(abs).1 is Completed || m.toggle_at(abs).1 is Reopened
            &&& m.toggle_at(abs).1 is Reopened <==> tree::flat_lines(m.stores)[abs][3] != ' '
            &&& m.edit_at(abs, text).1 is Edited
        },
        !(0 <= abs < tree::flat_lines(m.stores).len()) ==> {
            &&& m.remove_at(abs).1 is OutOfRange
            &&& m.prioritize_at(abs).1 is OutOfRange
            &&& m.toggle_at(abs).1 is OutOfRange
            &&& m.edit_at(abs, text).1 is OutOfRange
            &&& m.retag_at(abs, sign, name, true).1 is OutOfRange
            &&& m.remove_at(abs).0 == m
            &&& m.prioritize_at(abs).0 == m
            &&& m.toggle_at(abs).0 == m
            &&& m.edit_at(abs, text).0 == m
            &&& m.retag_at(abs, sign, name, true).0 == m
        },
        m.add_task(text).1 is Added,
{
    lemma_in_range(m, abs);
    let cut = line_laws::cleaning_cuts_the_ends(text);
    tree_laws::lemma_store_over_range(m.stores, m.root_todo(), 0);
    assert(store_laws::is_ready(m.stores[m.root_index()]));
    if m.located(abs) is Some {
        let (si, li) = lemma_place(m, abs);
        assert(store_laws::is_ready(m.stores[si]));
        lemma_flat_cut(m.stores, si);
        assert(tree::flat_lines(m.stores)[abs] == m.stores[si].lines[li]);
    }
}

// ---- bulk deletion ----

proof fn lemma_group_by_position(m: TreeView, indices: Seq<usize>, si: int, li: int)
    requires
        is_countable(m),
        0 <= si < m.stores.len(),
        0 <= li < m.stores[si].lines.len(),
        tree::flat_lines(m.stores).len() <= usize::MAX,
    ensures
        m.group(indices, si).contains(li as usize) <==> indices.contains(
            (tree::start_of(m.stores, si) + li) as usize,
        ),
{
    let abs = tree::start_of(m.stores, si) + li;
    bulk_laws::grouping_follows_the_map(m, indices, si, li as usize);
    tree::every_task_is_listed_once(m.stores, si, li);
    tree::lemma_slots_len(m.stores);
    let map = tree::slots(m.stores);
    if m.group(indices, si).contains(li as usize) {
        let g = choose|g: usize| #[trigger]
            indices.contains(g) && g < map.len() && map[g as int].0 == si && map[g as int].1
                == li as usize;
        assert(map[g as int] == (si as usize, li as usize));
        assert(g as int == abs);
    }
    if indices.contains(abs as usize) {
        assert(map[abs] == (si as usize, li as usize));
    }
}

proof fn lemma_bulk_deletion(m: TreeView, indices: Seq<usize>, k: nat) -> (at: Seq<int>)
    requires
        is_countable(m),
        tree::flat_lines(m.stores).len() <= usize::MAX,
        m.delete_indices(indices).1 is Done || m.delete_indices(indices).1 is Nothing,
        k <= m.stores.len(),
    ensures
        positions::names_exactly(
            at,
            tree::start_of(m.stores, k as int),
            |i: int| !indices.contains(i as usize),
        ),
        positions::holds_at(
            tree::flat_lines(m.delete_indices(indices).0.stores.take(k as int)),
            tree::flat_lines(m.stores.take(k as int)),
            at,
        ),
    decreases k,
{
    let after = m.delete_indices(indices).0.stores;
    let keep = |i: int| !indices.contains(i as usize);
    bulk_laws::lemma_deleting(m, indices, m.stores.len());
    if k == 0 {
        assert(after.take(0) =~= Seq::<StoreView>::empty());
        assert(m.stores.take(0) =~= Seq::<StoreView>::empty());
        Seq::empty()
    } else {
        let si = k - 1;
        let less = lemma_bulk_deletion(m, indices, si as nat);
        let s = m.stores[si];
        let locals = m.group(indices, si);
        let local = |i: int| !locals.contains(i as usize);
        let start = tree::start_of(m.stores, si);
        bulk_laws::bulk_deletion_keeps_the_rest(m, indices, si);
        let here = store_laws::lemma_left_over(s.lines, locals, s.lines.len());
        lemma_flat_cut(m.stores, si);
        assert forall|i: int| 0 <= i < s.lines.len() implies #[trigger] local(i) == keep(
            start + i,
        ) by {
            lemma_group_by_position(m, indices, si, i);
        }
        positions::lemma_join(less, start, here, s.lines.len() as int, keep, local);
        let at = less + Seq::new(here.len(), |j: int| start + here[j]);
        let a = m.stores.take(k as int);
        let b = after.take(k as int);
        assert(a.drop_last() =~= m.stores.take(si));
        assert(b.drop_last() =~= after.take(si));
        assert(a.last() == s && b.last() == after[si]);
        let fa = tree::flat_lines(a);
        let fb = tree::flat_lines(b);
        assert forall|j: int| 0 <= j < at.len() implies #[trigger] fb[j] == fa[at[j]] by {
            if j < less.len() {
                assert(at[j] == less[j]);
                assert(fb[j] == tree::flat_lines(after.take(si))[j]);
                assert(less[j] < start);
            } else {
                let x = j - less.len();
                assert(at[j] == start + here[x]);
                assert(fb[j] == after[si].lines[x]);
                assert(fa[start + here[x]] == s.lines[here[x]]);
            }
        }
        at
    }
}

/// When a bulk deletion goes through, the flat list keeps, in order, exactly the
/// tasks at the positions that were not chosen, and the report counts the
/// others.
pub proof fn bulk_deletion_takes_out_the_chosen(m: TreeView, indices: Seq<usize>) -> (at: Seq<int>)
    requires
        is_countable(m),
        tree::flat_lines(m.stores).len() <= usize::MAX,
        m.delete_indices(indices).1 is Done || m.delete_indices(indices).1 is Nothing,
    ensures
        positions::names_exactly(
            at,
            tree::flat_lines(m.stores).len() as int,
            |i: int| !indices.contains(i as usize),
        ),
        positions::holds_at(
            tree::flat_lines(m.delete_indices(indices).0.stores),
            tree::flat_lines(m.stores),
            at,
        ),
        m.delete_indices(indices).1 matches BulkDeleteOutcome::Done { deleted } ==> deleted
            == tree::flat_lines(m.stores).len() - at.len(),
        m.delete_indices(indices).1 is Nothing ==> at.len() == tree::flat_lines(m.stores).len(),
{
    let n = m.stores.len();
    let after = m.delete_indices(indices).0.stores;
    bulk_laws::lemma_deleting(m, indices, n);
    let at = lemma_bulk_deletion(m, indices, n);
    assert(m.stores.take(n as int) =~= m.stores);
    assert(after.take(n as int) =~= after);
    lemma_deleted_count(m, indices, n);
    tree::lemma_slots_len(m.stores);
    tree::lemma_deleting(m, indices, n);
    tree::lemma_lines_before_all(m.stores, n as int);
    at
}

proof fn lemma_deleted_count(m: TreeView, indices: Seq<usize>, k: nat)
    requires
        is_countable(m),
        m.delete_indices(indices).1 is Done || m.delete_indices(indices).1 is Nothing,
        k <= m.stores.len(),
    ensures
        m.deleting(indices, k).deleted == tree::flat_lines(m.stores.take(k as int)).len()
            - tree::flat_lines(m.delete_indices(indices).0.stores.take(k as int)).len(),
    decreases k,
{
    let after = m.delete_indices(indices).0.stores;
    let n = m.stores.len();
    bulk_laws::lemma_deleting(m, indices, n);
    if k == 0 {
        assert(after.take(0) =~= m.stores.take(0));
    } else {
        let si = k - 1;
        lemma_deleted_count(m, indices, si as nat);
        bulk_laws::lemma_deleting(m, indices, si as nat);
        bulk_laws::lemma_deleting_went_well(m, indices, si as nat, n);
        bulk_laws::lemma_deleting_went_well(m, indices, k, n);
        bulk_laws::lemma_deleting_keeps(m, indices, k, n, si);
        let a = m.stores.take(k as int);
        let b = after.take(k as int);
        assert(a.drop_last() =~= m.stores.take(si));
        assert(b.drop_last() =~= after.take(si));
        assert(m.deleting(indices, si as nat).tree.stores[si] == m.stores[si]);
        let locals = m.group(indices, si);
        assert(m.stores[si].lines.len() <= usize::MAX);
        if locals.len() > 0 {
            let at = store_laws::lemma_left_over(m.stores[si].lines, locals, m.stores[si].lines.len());
            positions::lemma_count(
                at,
                m.stores[si].lines.len() as int,
                |i: int| !locals.contains(i as usize),
            );
            assert(m.deleting(indices, k).tree.stores[si] == m.stores[si].remove_some(locals).0);
        } else {
            assert(m.deleting(indices, k).tree.stores[si] == m.stores[si]);
        }
        assert(after[si] == m.deleting(indices, k).tree.stores[si]);
    }
}

proof fn lemma_deletion_runs(m: TreeView, indices: Seq<usize>, k: nat)
    requires
        k <= m.stores.len(),
        forall|i: int| 0 <= i < m.stores.len() ==> store_laws::is_ready(#[trigger] m.stores[i]),
    ensures
        m.deleting(indices, k).error is None,
        m.deleting(indices, k).aborted is None,
    decreases k,
{
    if k > 0 {
        lemma_deletion_runs(m, indices, (k - 1) as nat);
        bulk_laws::lemma_deleting(m, indices, (k - 1) as nat);
        assert(store_laws::is_ready(m.stores[k - 1]));
    }
}

/// Where every file can be changed, a bulk deletion goes through exactly when a
/// task that is there was chosen.
pub proof fn bulk_deletion_goes_through(m: TreeView, indices: Seq<usize>)
    requires
        is_countable(m),
        tree::flat_lines(m.stores).len() <= usize::MAX,
        forall|i: int| 0 <= i < m.stores.len() ==> store_laws::is_ready(#[trigger] m.stores[i]),
    ensures
        m.delete_indices(indices).1 is Done || m.delete_indices(indices).1 is Nothing,
        m.delete_indices(indices).1 is Done <==> exists|i: int|
            0 <= i < tree::flat_lines(m.stores).len() && #[trigger] indices.contains(i as usize),
{
    let n = tree::flat_lines(m.stores).len();
    let keep = |i: int| !indices.contains(i as usize);
    lemma_deletion_runs(m, indices, m.stores.len());
    tree::lemma_slots_len(m.stores);
    tree::lemma_deleting(m, indices, m.stores.len());
    tree::lemma_lines_before_all(m.stores, m.stores.len() as int);
    let at = bulk_deletion_takes_out_the_chosen(m, indices);
    let all = Seq::new(n, |i: int| i);
    if forall|i: int| 0 <= i < n ==> !#[trigger] indices.contains(i as usize) {
        assert forall|i: int| 0 <= i < n && #[trigger] keep(i) implies exists|j: int|
            0 <= j < all.len() && #[trigger] all[j] == i by {
            assert(all[i] == i);
        }
        assert(positions::names_exactly(all, n as int, keep));
        positions::lemma_same_positions(at, all, n as int, keep);
    }
    if m.delete_indices(indices).1 is Nothing {
        assert forall|i: int| 0 <= i < n implies !#[trigger] indices.contains(i as usize) by {
            positions::lemma_every_name(at, n as int, keep);
            assert(at[i] == i);
            assert(keep(at[i]));
        }
    }
}

// ---- bulk completion ----

/// The task at a position was chosen and is open.
pub open spec fn is_taken_on(m: TreeView, indices: Seq<usize>, i: int) -> bool {
    indices.contains(i as usize) && tree::flat_lines(m.stores)[i][3] == ' '
}

/// The task at a position was chosen, is open, and recurs on the day of its
/// file.
pub open spec fn is_repeated(m: TreeView, indices: Seq<usize>, i: int) -> bool {
    is_taken_on(m, indices, i) && line::next_occurrence(
        tree::flat_lines(m.stores)[i],
        day_of(m, i),
    ) is Some
}

proof fn lemma_taken_on(m: TreeView, indices: Seq<usize>, si: int, i: int)
    requires
        is_countable(m),
        tree::flat_lines(m.stores).len() <= usize::MAX,
        0 <= si < m.stores.len(),
        0 <= i < m.stores[si].lines.len(),
    ensures
        tree::flat_lines(m.stores)[tree::start_of(m.stores, si) + i] == m.stores[si].lines[i],
        day_of(m, tree::start_of(m.stores, si) + i) == m.stores[si].today,
        store_laws::is_taken_on(m.stores[si].lines, m.group(indices, si), i) == is_taken_on(
            m,
            indices,
            tree::start_of(m.stores, si) + i,
        ),
        store_laws::is_repeated(
            m.stores[si].lines,
            m.group(indices, si),
            m.stores[si].today,
            i,
        ) == is_repeated(m, indices, tree::start_of(m.stores, si) + i),
{
    lemma_flat_cut(m.stores, si);
    lemma_group_by_position(m, indices, si, i);
    tree::every_task_is_listed_once(m.stores, si, i);
}

/// The names of the tasks that a bulk completion takes on, and of those that it
/// repeats, in the first `k` files, with their counts.
proof fn lemma_bulk_completion(m: TreeView, indices: Seq<usize>, k: nat) -> (at: (
    Seq<int>,
    Seq<int>,
))
    requires
        is_countable(m),
        tree::flat_lines(m.stores).len() <= usize::MAX,
        m.completing(indices, m.stores.len()).error is None,
        m.completing(indices, m.stores.len()).aborted is None,
        k <= m.stores.len(),
    ensures
        positions::names_exactly(
            at.0,
            tree::start_of(m.stores, k as int),
            |i: int| is_taken_on(m, indices, i),
        ),
        positions::names_exactly(
            at.1,
            tree::start_of(m.stores, k as int),
            |i: int| is_repeated(m, indices, i),
        ),
        m.completing(indices, k).completed == at.0.len(),
        m.completing(indices, k).spawned == at.1.len(),
    decreases k,
{
    let taken = |i: int| is_taken_on(m, indices, i);
    let again = |i: int| is_repeated(m, indices, i);
    let n = m.stores.len();
    if k == 0 {
        assert(m.stores.take(0) =~= Seq::<StoreView>::empty());
        (Seq::empty(), Seq::empty())
    } else {
        let si = k - 1;
        let (a, b) = lemma_bulk_completion(m, indices, si as nat);
        let s = m.stores[si];
        let locals = m.group(indices, si);
        let start = tree::start_of(m.stores, si);
        let len = s.lines.len() as int;
        assert(m.stores.take(k as int).drop_last() =~= m.stores.take(si));
        assert(m.stores.take(k as int).last() == s);
        bulk_laws::lemma_completing(m, indices, si as nat);
        bulk_laws::lemma_completing_went_well(m, indices, k, n);
        bulk_laws::lemma_completing_went_well(m, indices, si as nat, n);
        let (c, d) = store_laws::completing_many(s, locals);
        let taken_here = |i: int| store_laws::is_taken_on(s.lines, locals, i);
        let again_here = |i: int| store_laws::is_repeated(s.lines, locals, s.today, i);
        assert forall|i: int| 0 <= i < len implies #[trigger] taken_here(i) == taken(
            start + i,
        ) by {
            lemma_taken_on(m, indices, si, i);
        }
        assert forall|i: int| 0 <= i < len implies #[trigger] again_here(i) == again(
            start + i,
        ) by {
            lemma_taken_on(m, indices, si, i);
        }
        positions::lemma_join(a, start, c, len, taken, taken_here);
        positions::lemma_join(b, start, d, len, again, again_here);
        if locals.len() == 0 || c.len() == 0 {
            assert(c.len() == 0) by {
                if c.len() > 0 {
                    assert(taken_here(c[0]));
                    assert(locals.contains(c[0] as usize));
                }
            }
            assert(d.len() == 0) by {
                if d.len() > 0 {
                    assert(again_here(d[0]));
                    assert(taken_here(d[0]));
                }
            }
        }
        (
            a + Seq::new(c.len(), |j: int| start + c[j]),
            b + Seq::new(d.len(), |j: int| start + d[j]),
        )
    }
}

/// When a bulk completion goes through, it reports how many of the chosen tasks
/// were open, and how many of those recur.
pub proof fn bulk_completion_counts_the_chosen(m: TreeView, indices: Seq<usize>) -> (at: (
    Seq<int>,
    Seq<int>,
))
    requires
        is_countable(m),
        tree::flat_lines(m.stores).len() <= usize::MAX,
        m.complete_indices(indices).1 is Done || m.complete_indices(indices).1
            is NothingToComplete,
    ensures
        positions::names_exactly(
            at.0,
            tree::flat_lines(m.stores).len() as int,
            |i: int| is_taken_on(m, indices, i),
        ),
        positions::names_exactly(
            at.1,
            tree::flat_lines(m.stores).len() as int,
            |i: int| is_repeated(m, indices, i),
        ),
        m.complete_indices(indices).1 matches BulkCompleteOutcome::Done { completed, spawned }
            ==> completed == at.0.len() && spawned == at.1.len(),
        m.complete_indices(indices).1 is NothingToComplete <==> at.0.len() == 0,
{
    let n = m.stores.len();
    let at = lemma_bulk_completion(m, indices, n);
    assert(m.stores.take(n as int) =~= m.stores);
    tree::lemma_slots_len(m.stores);
    tree::lemma_completing(m, indices, n);
    tree::lemma_lines_before_all(m.stores, n as int);
    at
}

/// When a bulk completion goes through, every chosen task that was open is
/// ticked off at its place, every other task of its file stays, and the next
/// occurrences of those that recur follow the file's last task, in order.
pub proof fn bulk_completion_ticks_the_chosen(m: TreeView, indices: Seq<usize>, si: int) -> (at:
    Seq<int>)
    requires
        is_countable(m),
        tree::flat_lines(m.stores).len() <= usize::MAX,
        m.complete_indices(indices).1 is Done || m.complete_indices(indices).1
            is NothingToComplete,
        0 <= si < m.stores.len(),
    ensures
        ({
            let before = m.stores[si].lines;
            let after = m.complete_indices(indices).0.stores[si].lines;
            let start = tree::start_of(m.stores, si);
            let n = before.len() as int;
            &&& positions::names_exactly(at, n, |i: int| is_repeated(m, indices, start + i))
            &&& after.len() == n + at.len()
            &&& forall|i: int|
                0 <= i < n ==> #[trigger] after[i] == (if is_taken_on(m, indices, start + i) {
                    line::completed(before[i], m.stores[si].today)
                } else {
                    before[i]
                })
            &&& forall|j: int|
                0 <= j < at.len() ==> Some(#[trigger] after[n + j]) == line::next_occurrence(
                    before[at[j]],
                    m.stores[si].today,
                )
        }),
{
    let s = m.stores[si];
    let locals = m.group(indices, si);
    let start = tree::start_of(m.stores, si);
    let n = s.lines.len() as int;
    let all = m.stores.len();
    bulk_laws::lemma_completing(m, indices, si as nat);
    bulk_laws::lemma_completing_went_well(m, indices, (si + 1) as nat, all);
    bulk_laws::lemma_completing_went_well(m, indices, si as nat, all);
    bulk_laws::lemma_completing_keeps(m, indices, (si + 1) as nat, all, si);
    let (c, d) = store_laws::completing_many(s, locals);
    let again_here = |i: int| store_laws::is_repeated(s.lines, locals, s.today, i);
    let taken_here = |i: int| store_laws::is_taken_on(s.lines, locals, i);
    assert forall|i: int| 0 <= i < n implies #[trigger] again_here(i) == is_repeated(
        m,
        indices,
        start + i,
    ) by {
        lemma_taken_on(m, indices, si, i);
    }
    positions::lemma_same_keep(d, n, again_here, |i: int| is_repeated(m, indices, start + i));
    let after = m.complete_indices(indices).0.stores[si].lines;
    if locals.len() == 0 || c.len() == 0 {
        assert(c.len() == 0) by {
            if c.len() > 0 {
                assert(taken_here(c[0]));
                assert(locals.contains(c[0] as usize));
            }
        }
        assert(d.len() == 0) by {
            if d.len() > 0 {
                assert(again_here(d[0]));
                assert(taken_here(d[0]));
            }
        }
        assert(after == s.lines);
    }
    assert forall|i: int| 0 <= i < n implies #[trigger] after[i] == (if is_taken_on(
        m,
        indices,
        start + i,
    ) {
        line::completed(s.lines[i], s.today)
    } else {
        s.lines[i]
    }) by {
        lemma_taken_on(m, indices, si, i);
        if c.len() == 0 && taken_here(i) {
            assert(exists|j: int| 0 <= j < c.len() && #[trigger] c[j] == i);
        }
    }
    d
}

proof fn lemma_completion_runs(m: TreeView, indices: Seq<usize>, k: nat)
    requires
        k <= m.stores.len(),
        forall|i: int| 0 <= i < m.stores.len() ==> store_laws::is_ready(#[trigger] m.stores[i]),
    ensures
        m.completing(indices, k).error is None,
        m.completing(indices, k).aborted is None,
    decreases k,
{
    if k > 0 {
        lemma_completion_runs(m, indices, (k - 1) as nat);
        bulk_laws::lemma_completing(m, indices, (k - 1) as nat);
        assert(store_laws::is_ready(m.stores[k - 1]));
    }
}

/// Where every file can be changed, a bulk completion goes through.
pub proof fn bulk_completion_goes_through(m: TreeView, indices: Seq<usize>)
    requires
        forall|i: int| 0 <= i < m.stores.len() ==> store_laws::is_ready(#[trigger] m.stores[i]),
    ensures
        m.complete_indices(indices).1 is Done || m.complete_indices(indices).1
            is NothingToComplete,
{
    lemma_completion_runs(m, indices, m.stores.len());
}

/// The flat list goes file by file: each file's tasks stand one after the other,
/// behind those of the file before it.
pub proof fn the_flat_list_goes_file_by_file(m: TreeView, si: int, li: int)
    requires
        0 <= si < m.stores.len(),
        0 <= li < m.stores[si].lines.len(),
    ensures
        tree::start_of(m.stores, 0) == 0,
        tree::start_of(m.stores, si + 1) == tree::start_of(m.stores, si) + m.stores[si].lines.len(),
        tree::start_of(m.stores, m.stores.len() as int) == tree::flat_lines(m.stores).len(),
        tree::flat_lines(m.stores)[tree::start_of(m.stores, si) + li] == m.stores[si].lines[li],
{
    lemma_flat_cut(m.stores, si);
    assert(m.stores.take(0) =~= Seq::<StoreView>::empty());
    assert(m.stores.take(m.stores.len() as int) =~= m.stores);
    assert(m.stores.take(si + 1).drop_last() =~= m.stores.take(si));
    assert(m.stores.take(si + 1).last() == m.stores[si]);
}

// ---- the archive and the inbox ----

/// Restoring an archived task takes it out of the archive of the root's own file
/// and puts it behind that file's last task; no other task moves but for that.
pub proof fn restoring_puts_the_task_behind_the_root_file(m: TreeView, i: int) -> (at: int)
    requires
        m.stores.len() > 0,
        0 <= i,
        m.restored(i).1 is Restored,
    ensures
        ({
            let si = m.root_index();
            let after = m.restored(i).0;
            &&& 0 <= si < m.stores.len()
            &&& at == tree::start_of(m.stores, si) + m.stores[si].lines.len()
            &&& is_with_one_more(
                tree::flat_lines(after.stores),
                tree::flat_lines(m.stores),
                at,
            )
            &&& i < m.stores[si].archive.lines.len()
            &&& tree::flat_lines(after.stores)[at] == m.stores[si].archive.lines[i]
            &&& is_without(after.stores[si].archive.lines, m.stores[si].archive.lines, i)
            &&& after.undo_order == m.undo_order
        }),
{
    let si = m.root_index();
    tree_laws::lemma_store_over_range(m.stores, m.root_todo(), 0);
    let s = m.stores[si];
    let t = s.restore(i).0;
    store_laws::restoring(s, i);
    lemma_flat_with(m, si, t, false);
    let before = tree::flat_lines(m.stores);
    let after = tree::flat_lines(m.restored(i).0.stores);
    let start = tree::start_of(m.stores, si);
    let at = start + s.lines.len();
    assert forall|k: int| 0 <= k < at implies #[trigger] after[k] == before[k] by {
        if start <= k {
            assert(after[k] == t.lines[k - start]);
        }
    }
    assert(after[at] == t.lines[s.lines.len() as int]);
    at
}

/// Deleting an archived task takes it out of the archive of the root's own file
/// and leaves the tasks alone.
pub proof fn archive_deletion_leaves_the_tasks(m: TreeView, i: int)
    requires
        m.stores.len() > 0,
        0 <= i,
        m.archive_removed(i).1 is Deleted,
    ensures
        ({
            let si = m.root_index();
            let after = m.archive_removed(i).0;
            &&& 0 <= si < m.stores.len()
            &&& tree::flat_lines(after.stores) == tree::flat_lines(m.stores)
            &&& is_without(after.stores[si].archive.lines, m.stores[si].archive.lines, i)
        }),
{
    let si = m.root_index();
    tree_laws::lemma_store_over_range(m.stores, m.root_todo(), 0);
    store_laws::deleting_from_the_archive(m.stores[si], i);
    lemma_flat_with(m, si, m.stores[si].archive_remove(i).0, false);
}

/// Draining puts the tasks of the root's own inbox, in order, behind the last
/// task of the root's own file.
pub proof fn draining_puts_tasks_behind_the_root_file(m: TreeView) -> (at: int)
    requires
        m.stores.len() > 0,
        m.drained().1 is Drained,
        todo::task_lines(m.stores[m.root_index()].inbox.text->0).len() <= usize::MAX,
    ensures
        ({
            let si = m.root_index();
            let before = tree::flat_lines(m.stores);
            let after = tree::flat_lines(m.drained().0.stores);
            let new = todo::task_lines(m.stores[si].inbox.text->0);
            &&& 0 <= si < m.stores.len()
            &&& at == tree::start_of(m.stores, si) + m.stores[si].lines.len()
            &&& after.len() == before.len() + new.len()
            &&& forall|k: int| 0 <= k < at ==> #[trigger] after[k] == before[k]
            &&& forall|k: int|
                at <= k < at + new.len() ==> #[trigger] after[k] == new[k - at]
            &&& forall|k: int|
                at + new.len() <= k < after.len() ==> #[trigger] after[k] == before[k - new.len()]
            &&& m.drained().0.stores[si].inbox.text == Some(Seq::<char>::empty())
        }),
{
    let si = m.root_index();
    tree_laws::lemma_store_over_range(m.stores, m.root_todo(), 0);
    let s = m.stores[si];
    let t = s.drain().0;
    store_laws::draining(s);
    lemma_flat_with(m, si, t, false);
    let before = tree::flat_lines(m.stores);
    let after = tree::flat_lines(m.drained().0.stores);
    let start = tree::start_of(m.stores, si);
    let at = start + s.lines.len();
    let new = todo::task_lines(s.inbox.text->0);
    assert forall|k: int| 0 <= k < at implies #[trigger] after[k] == before[k] by {
        if start <= k {
            assert(after[k] == t.lines[k - start]);
        }
    }
    assert forall|k: int| at <= k < at + new.len() implies #[trigger] after[k] == new[k - at] by {
        assert(after[k] == t.lines[k - start]);
        assert(t.lines[s.lines.len() + (k - at)] == new[k - at]);
    }
    at
}

/// Looking at the archive leaves the tasks alone and takes over what the file of
/// the root's own archive holds when that has changed.
pub proof fn looking_at_the_archive_leaves_the_tasks(m: TreeView)
    requires
        m.stores.len() > 0,
    ensures
        ({
            let si = m.root_index();
            let (after, found) = m.archive_polled();
            let s = m.stores[si];
            &&& 0 <= si < m.stores.len()
            &&& tree::flat_lines(after.stores) == tree::flat_lines(m.stores)
            &&& found <==> s.done_file.text is Some && s.done_file.text->0 != s.archive.text
            &&& found ==> after.stores[si].archive.lines == todo::task_lines(s.done_file.text->0)
            &&& !found ==> after.stores[si].archive == s.archive
        }),
{
    let si = m.root_index();
    tree_laws::lemma_store_over_range(m.stores, m.root_todo(), 0);
    store_laws::looking_at_the_archive(m.stores[si]);
    lemma_flat_with(m, si, m.stores[si].polled().0, false);
}

} // verus!
