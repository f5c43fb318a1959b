//! What holds of changes that span several files.
use crate::line;
use crate::outcome::{ArchiveOutcome, BulkCompleteOutcome, BulkDeleteOutcome, Reconcile};
use crate::store;
use crate::store::StoreView;
use crate::todo;
use crate::tree;
use crate::tree::TreeView;
use vstd::prelude::*;

verus! {

/// The indices handed to a store are exactly the local ones of those that lie
/// in it.
pub proof fn grouping_follows_the_map(m: TreeView, indices: Seq<usize>, si: int, li: usize)
    ensures
        m.group(indices, si).contains(li) <==> exists|g: usize|
            #[trigger] indices.contains(g) && g < tree::slots(m.stores).len() && tree::slots(
                m.stores,
            )[g as int].0 == si && tree::slots(m.stores)[g as int].1 == li,
    decreases indices.len(),
{
    lemma_locals_in(tree::slots(m.stores), indices, si, li);
}

proof fn lemma_locals_in(map: Seq<(usize, usize)>, indices: Seq<usize>, si: int, li: usize)
    ensures
        tree::locals_in(map, indices, si).contains(li) <==> exists|g: usize|
            #[trigger] indices.contains(g) && g < map.len() && map[g as int].0 == si
                && map[g as int].1 == li,
    decreases indices.len(),
{
    if indices.len() > 0 {
        let rest = indices.drop_last();
        let g = indices.last();
        lemma_locals_in(map, rest, si, li);
        let less = tree::locals_in(map, rest, si);
        let all = tree::locals_in(map, indices, si);
        assert(indices[indices.len() - 1] == g);
        assert forall|h: usize| #[trigger] indices.contains(h) <==> rest.contains(h) || h == g by {
            if indices.contains(h) {
                let p = choose|p: int| 0 <= p < indices.len() && indices[p] == h;
                if p < rest.len() {
                    assert(rest[p] == h);
                }
            }
            if rest.contains(h) {
                let p = choose|p: int| 0 <= p < rest.len() && rest[p] == h;
                assert(indices[p] == h);
            }
        }
        assert forall|x: usize| #[trigger] all.contains(x) <==> less.contains(x) || (g < map.len()
            && map[g as int].0 == si && map[g as int].1 == x) by {
            if all.contains(x) {
                let p = choose|p: int| 0 <= p < all.len() && all[p] == x;
                if p < less.len() {
                    assert(less[p] == x);
                }
            }
            if less.contains(x) {
                let p = choose|p: int| 0 <= p < less.len() && less[p] == x;
                assert(all[p] == x);
            }
            if g < map.len() && map[g as int].0 == si && map[g as int].1 == x {
                assert(all[less.len() as int] == x);
            }
        }
        if all.contains(li) && !less.contains(li) {
            assert(indices.contains(g));
        }
        if exists|h: usize|
            #[trigger] rest.contains(h) && h < map.len() && map[h as int].0 == si
                && map[h as int].1 == li {
            let h = choose|h: usize|
                #[trigger] rest.contains(h) && h < map.len() && map[h as int].0 == si
                    && map[h as int].1 == li;
            assert(indices.contains(h));
        }
    }
}

/// A sum over the first `n` files.
pub open spec fn total(n: nat, f: spec_fn(int) -> int) -> int
    decreases n,
{
    if n == 0 {
        0
    } else {
        total((n - 1) as nat, f) + f(n - 1)
    }
}

proof fn lemma_total_part(n: nat, f: spec_fn(int) -> int, i: int)
    requires
        forall|j: int| 0 <= j < n ==> #[trigger] f(j) >= 0,
        0 <= i < n,
    ensures
        f(i) <= total(n, f),
        0 <= total(n, f),
    decreases n,
{
    if n > 1 {
        let less = (n - 1) as nat;
        lemma_total_part(less, f, if i < less {
            i
        } else {
            0
        });
    } else {
        assert(total(0, f) == 0);
    }
    assert(f(n - 1) >= 0);
}

// ---- completing ----

/// A bulk completion leaves the files after the first `k` alone and forgets no
/// change.
pub proof fn lemma_completing(m: TreeView, indices: Seq<usize>, k: nat)
    requires
        k <= m.stores.len(),
    ensures
        m.completing(indices, k).tree.stores.len() == m.stores.len(),
        forall|i: int|
            k <= i < m.stores.len() ==> (#[trigger] m.completing(indices, k).tree.stores[i])
                == m.stores[i],
        m.completing(indices, k).tree.undo_order.len() >= m.undo_order.len(),
    decreases k,
{
    if k > 0 {
        lemma_completing(m, indices, (k - 1) as nat);
    }
}

/// A run that went well did so at every file.
pub proof fn lemma_completing_went_well(m: TreeView, indices: Seq<usize>, k: nat, n: nat)
    requires
        k <= n,
        m.completing(indices, n).error is None,
        m.completing(indices, n).aborted is None,
    ensures
        m.completing(indices, k).error is None,
        m.completing(indices, k).aborted is None,
    decreases n - k,
{
    if k < n {
        lemma_completing_went_well(m, indices, k + 1, n);
    }
}

/// A run leaves the files behind it as they are.
pub proof fn lemma_completing_keeps(m: TreeView, indices: Seq<usize>, k: nat, n: nat, si: int)
    requires
        k <= n <= m.stores.len(),
        0 <= si < k,
    ensures
        m.completing(indices, n).tree.stores[si] == m.completing(indices, k).tree.stores[si],
    decreases n - k,
{
    if k < n {
        lemma_completing_keeps(m, indices, k, (n - 1) as nat, si);
        lemma_completing(m, indices, (n - 1) as nat);
    }
}

proof fn lemma_complete_all(
    lines: Seq<Seq<char>>,
    locals: Seq<usize>,
    today: Seq<char>,
    k: nat,
    i: int,
)
    requires
        k <= lines.len(),
        0 <= i < lines.len(),
    ensures
        store::complete_all(lines, locals, today, k).len() >= lines.len(),
        store::complete_all(lines, locals, today, k)[i] == (if i < k && store::picks(
            lines,
            locals,
            i,
        ) {
            line::completed(lines[i], today)
        } else {
            lines[i]
        }),
    decreases k,
{
    if k > 0 {
        lemma_complete_all(lines, locals, today, (k - 1) as nat, i);
        lemma_complete_all(lines, locals, today, (k - 1) as nat, k - 1);
    }
}

proof fn lemma_picked(lines: Seq<Seq<char>>, locals: Seq<usize>, k: nat, i: int)
    requires
        0 <= i < k,
        store::picks(lines, locals, i),
    ensures
        store::picked(lines, locals, k) > 0,
    decreases k,
{
    if i < k - 1 {
        lemma_picked(lines, locals, (k - 1) as nat, i);
    }
}

/// A completed line is done.
pub proof fn completed_line_is_done(s: Seq<char>, today: Seq<char>)
    ensures
        line::parts_of(line::completed(s, today)).done,
{
    let p = line::PartsView { done: true, done_date: line::stamp(today), ..line::parts_of(s) };
    assert(line::line_of(p)[3] == line::checkbox(true)[3]);
}

proof fn lemma_completed_in_store(s: StoreView, locals: Seq<usize>, li: int)
    requires
        0 <= li < s.lines.len() <= usize::MAX,
        locals.contains(li as usize),
        s.complete_some(locals).1 is Done || s.complete_some(locals).1 is NothingToComplete,
    ensures
        s.complete_some(locals).0.lines.len() >= s.lines.len(),
        line::parts_of(s.complete_some(locals).0.lines[li]).done,
{
    let n = s.lines.len();
    if store::picks(s.lines, locals, li) {
        lemma_picked(s.lines, locals, n, li);
    }
    lemma_complete_all(s.lines, locals, s.today, n, li);
    completed_line_is_done(s.lines[li], s.today);
}

/// What the completion of the chosen tasks of file `si` reports, taken by itself.
pub open spec fn completion_in(m: TreeView, indices: Seq<usize>, si: int) -> BulkCompleteOutcome {
    if m.group(indices, si).len() == 0 {
        BulkCompleteOutcome::NothingToComplete
    } else {
        m.stores[si].complete_some(m.group(indices, si)).1
    }
}

/// A file before `si` reports an error.
pub open spec fn completion_failed_before(m: TreeView, indices: Seq<usize>, si: int) -> bool {
    exists|j: int| 0 <= j < si && #[trigger] completion_in(m, indices, j) is Error
}

/// How many tasks are completed in file `si`.
pub open spec fn completed_in(m: TreeView, indices: Seq<usize>, si: int) -> int {
    match completion_in(m, indices, si) {
        BulkCompleteOutcome::Done { completed, .. } => completed as int,
        _ => 0,
    }
}

/// How many tasks are put down for another day in file `si`.
pub open spec fn spawned_in(m: TreeView, indices: Seq<usize>, si: int) -> int {
    match completion_in(m, indices, si) {
        BulkCompleteOutcome::Done { spawned, .. } => spawned as int,
        _ => 0,
    }
}

proof fn lemma_completing_files(m: TreeView, indices: Seq<usize>, k: nat, si: int)
    requires
        k <= m.stores.len(),
        0 <= si < k,
    ensures
        m.completing(indices, k).error is Some <==> completion_failed_before(m, indices, k as int),
        m.completing(indices, k).tree.stores[si] == (if m.group(indices, si).len() == 0
            || completion_failed_before(m, indices, si) {
            m.stores[si]
        } else {
            m.stores[si].complete_some(m.group(indices, si)).0
        }),
    decreases k,
{
    let last = k - 1;
    lemma_completing(m, indices, last as nat);
    if last > 0 {
        lemma_completing_files(m, indices, last as nat, 0);
    }
    let run = m.completing(indices, last as nat);
    assert(run.error is Some <==> completion_failed_before(m, indices, last));
    assert(run.tree.stores[last] == m.stores[last]);
    let out = completion_in(m, indices, last);
    if completion_failed_before(m, indices, last) {
        let j = choose|j: int| 0 <= j < last && #[trigger] completion_in(m, indices, j) is Error;
        assert(completion_in(m, indices, j) is Error);
    }
    if out is Error {
        assert(completion_failed_before(m, indices, k as int));
    }
    if si < last {
        lemma_completing_files(m, indices, last as nat, si);
    }
}

/// A bulk completion works on each file by itself: a file with no chosen task, or
/// behind one that reports an error, stays as it is; any other is changed as
/// its store would change it alone.
pub proof fn bulk_completion_goes_file_by_file(m: TreeView, indices: Seq<usize>, si: int)
    requires
        0 <= si < m.stores.len(),
    ensures
        m.complete_indices(indices).0.stores[si] == (if m.group(indices, si).len() == 0
            || completion_failed_before(m, indices, si) {
            m.stores[si]
        } else {
            m.stores[si].complete_some(m.group(indices, si)).0
        }),
{
    lemma_completing_files(m, indices, m.stores.len(), si);
}

proof fn lemma_completing_error(m: TreeView, indices: Seq<usize>, k: nat)
    requires
        k <= m.stores.len(),
    ensures
        ({
            let run = m.completing(indices, k);
            &&& run.error matches Some(e) ==> exists|si: int|
                0 <= si < k && #[trigger] completion_in(m, indices, si) == BulkCompleteOutcome::Error(e)
                    && !completion_failed_before(m, indices, si)
            &&& run.error is None ==> !completion_failed_before(m, indices, k as int)
        }),
    decreases k,
{
    if k > 0 {
        let last = k - 1;
        lemma_completing_error(m, indices, last as nat);
        lemma_completing(m, indices, last as nat);
        let before = m.completing(indices, last as nat);
        let out = completion_in(m, indices, last);
        assert(before.tree.stores[last] == m.stores[last]);
        if before.error is None && out is Error {
            assert(!completion_failed_before(m, indices, last));
        }
    }
}

/// File `si` is the last of the first `k` that was aborted, and `r` is why.
pub open spec fn completion_aborted_last(
    m: TreeView,
    indices: Seq<usize>,
    k: int,
    si: int,
    r: Reconcile,
) -> bool {
    &&& 0 <= si < k
    &&& completion_in(m, indices, si) == BulkCompleteOutcome::Aborted(r)
    &&& forall|j: int| si < j < k ==> !(#[trigger] completion_in(m, indices, j) is Aborted)
}

proof fn lemma_completing_abort(m: TreeView, indices: Seq<usize>, k: nat)
    requires
        k <= m.stores.len(),
        m.completing(indices, k).error is None,
    ensures
        match m.completing(indices, k).aborted {
            Some(r) => exists|si: int| completion_aborted_last(m, indices, k as int, si, r),
            None => forall|si: int|
                0 <= si < k ==> !(#[trigger] completion_in(m, indices, si) is Aborted),
        },
    decreases k,
{
    if k > 0 {
        let last = k - 1;
        lemma_completing(m, indices, last as nat);
        let before = m.completing(indices, last as nat);
        let run = m.completing(indices, k);
        let out = completion_in(m, indices, last);
        assert(before.tree.stores[last] == m.stores[last]);
        assert(before.error is None);
        lemma_completing_abort(m, indices, last as nat);
        if out is Aborted {
            assert(completion_aborted_last(m, indices, k as int, last, run.aborted->0));
        } else {
            assert(run.aborted == before.aborted);
            if let Some(r) = before.aborted {
                let si = choose|si: int| completion_aborted_last(m, indices, last, si, r);
                assert(completion_aborted_last(m, indices, k as int, si, r));
            }
        }
    }
}

proof fn lemma_completing_counts(m: TreeView, indices: Seq<usize>, k: nat)
    requires
        k <= m.stores.len(),
        m.completing(indices, k).error is None,
    ensures
        m.completing(indices, k).completed == total(k, |si: int| completed_in(m, indices, si)),
        m.completing(indices, k).spawned == total(k, |si: int| spawned_in(m, indices, si)),
    decreases k,
{
    if k > 0 {
        let last = k - 1;
        lemma_completing(m, indices, last as nat);
        let before = m.completing(indices, last as nat);
        assert(before.tree.stores[last] == m.stores[last]);
        assert(before.error is None);
        lemma_completing_counts(m, indices, last as nat);
    }
}

/// What a bulk completion reports: the error of the first file that has one; or
/// else the abort of the last file that has one; or else the counts of all
/// files together.
pub proof fn bulk_completion_reports(m: TreeView, indices: Seq<usize>)
    requires
        tree::slots(m.stores).len() <= usize::MAX,
        forall|i: int| 0 <= i < m.stores.len() ==> (#[trigger] m.stores[i]).lines.len() <= usize::MAX,
    ensures
        ({
            let n = m.stores.len() as int;
            match m.complete_indices(indices).1 {
                BulkCompleteOutcome::Error(e) => exists|si: int|
                    0 <= si < n && #[trigger] completion_in(m, indices, si) == BulkCompleteOutcome::Error(e)
                        && !completion_failed_before(m, indices, si),
                BulkCompleteOutcome::Aborted(r) => {
                    &&& !completion_failed_before(m, indices, n)
                    &&& exists|si: int| completion_aborted_last(m, indices, n, si, r)
                },
                BulkCompleteOutcome::Done { completed, spawned } => {
                    &&& forall|si: int|
                        0 <= si < n ==> #[trigger] completion_in(m, indices, si) is Done || completion_in(
                            m,
                            indices,
                            si,
                        ) is NothingToComplete
                    &&& completed == total(n as nat, |si: int| completed_in(m, indices, si))
                    &&& spawned == total(n as nat, |si: int| spawned_in(m, indices, si))
                    &&& completed > 0
                },
                BulkCompleteOutcome::NothingToComplete => forall|si: int|
                    0 <= si < n ==> #[trigger] completion_in(m, indices, si) is NothingToComplete,
            }
        }),
{
    let n = m.stores.len();
    lemma_completing_error(m, indices, n);
    if m.completing(indices, n).error is None {
        lemma_completing_abort(m, indices, n);
        lemma_completing_counts(m, indices, n);
    }
    tree::lemma_completing(m, indices, n);
    tree::lemma_lines_before_all(m.stores, n as int);
    let run = m.completing(indices, n);
    if run.error is None && run.aborted is None {
        assert forall|si: int| 0 <= si < n implies #[trigger] completion_in(m, indices, si) is Done
            || completion_in(m, indices, si) is NothingToComplete by {
            if completion_in(m, indices, si) is Error {
                assert(completion_failed_before(m, indices, n as int));
            }
        }
        let f = |si: int| completed_in(m, indices, si);
        assert forall|si: int| 0 <= si < n implies #[trigger] f(si) >= 0 by {}
        if run.completed == 0 {
            assert forall|si: int| 0 <= si < n implies #[trigger] completion_in(m, indices, si)
                is NothingToComplete by {
                if completion_in(m, indices, si) is Done {
                    store::bulk_counts_fit(m.stores[si], m.group(indices, si));
                    lemma_total_part(n, f, si);
                }
            }
        }
    }
}

/// When a bulk completion goes through in every file, each task that was
/// chosen is done.
pub proof fn bulk_completion_completes_the_chosen(m: TreeView, indices: Seq<usize>, g: usize)
    requires
        m.complete_indices(indices).1 is Done || m.complete_indices(indices).1
            is NothingToComplete,
        m.stores.len() <= usize::MAX,
        forall|i: int| 0 <= i < m.stores.len() ==> (#[trigger] m.stores[i]).lines.len() <= usize::MAX,
        indices.contains(g),
        m.located(g as int) is Some,
    ensures
        ({
            let (si, li) = m.located(g as int)->0;
            &&& si < m.stores.len()
            &&& line::parts_of(m.complete_indices(indices).0.stores[si as int].lines[li as int]).done
        }),
{
    let (si, li) = m.located(g as int)->0;
    tree::flat_list_mirrors_the_stores(m.stores, g as int);
    let n = m.stores.len();
    let locals = m.group(indices, si as int);
    grouping_follows_the_map(m, indices, si as int, li);
    assert(locals.contains(li));
    let k = si as nat;
    lemma_completing_went_well(m, indices, k + 1, n);
    lemma_completing_went_well(m, indices, k, n);
    lemma_completing(m, indices, k);
    lemma_completing_keeps(m, indices, k + 1, n, si as int);
    assert(m.completing(indices, k).tree.stores[si as int] == m.stores[si as int]);
    lemma_completed_in_store(m.stores[si as int], locals, li as int);
}

// ---- deleting ----

/// A bulk deletion leaves the files after the first `k` alone and forgets no
/// change.
pub proof fn lemma_deleting(m: TreeView, indices: Seq<usize>, k: nat)
    requires
        k <= m.stores.len(),
    ensures
        m.deleting(indices, k).tree.stores.len() == m.stores.len(),
        forall|i: int|
            k <= i < m.stores.len() ==> (#[trigger] m.deleting(indices, k).tree.stores[i])
                == m.stores[i],
        m.deleting(indices, k).tree.undo_order.len() >= m.undo_order.len(),
    decreases k,
{
    if k > 0 {
        lemma_deleting(m, indices, (k - 1) as nat);
    }
}

/// A run that went well did so at every file.
pub proof fn lemma_deleting_went_well(m: TreeView, indices: Seq<usize>, k: nat, n: nat)
    requires
        k <= n,
        m.deleting(indices, n).error is None,
        m.deleting(indices, n).aborted is None,
    ensures
        m.deleting(indices, k).error is None,
        m.deleting(indices, k).aborted is None,
    decreases n - k,
{
    if k < n {
        lemma_deleting_went_well(m, indices, k + 1, n);
    }
}

/// A run leaves the files behind it as they are.
pub proof fn lemma_deleting_keeps(m: TreeView, indices: Seq<usize>, k: nat, n: nat, si: int)
    requires
        k <= n <= m.stores.len(),
        0 <= si < k,
    ensures
        m.deleting(indices, n).tree.stores[si] == m.deleting(indices, k).tree.stores[si],
    decreases n - k,
{
    if k < n {
        lemma_deleting_keeps(m, indices, k, (n - 1) as nat, si);
        lemma_deleting(m, indices, (n - 1) as nat);
    }
}

/// What the deletion of the chosen tasks of file `si` reports, taken by itself.
pub open spec fn deletion_in(m: TreeView, indices: Seq<usize>, si: int) -> BulkDeleteOutcome {
    if m.group(indices, si).len() == 0 {
        BulkDeleteOutcome::Nothing
    } else {
        m.stores[si].remove_some(m.group(indices, si)).1
    }
}

/// A file before `si` reports an error.
pub open spec fn deletion_failed_before(m: TreeView, indices: Seq<usize>, si: int) -> bool {
    exists|j: int| 0 <= j < si && #[trigger] deletion_in(m, indices, j) is Error
}

/// How many tasks are deleted in file `si`.
pub open spec fn deleted_in(m: TreeView, indices: Seq<usize>, si: int) -> int {
    match deletion_in(m, indices, si) {
        BulkDeleteOutcome::Done { deleted } => deleted as int,
        _ => 0,
    }
}

proof fn lemma_deleting_files(m: TreeView, indices: Seq<usize>, k: nat, si: int)
    requires
        k <= m.stores.len(),
        0 <= si < k,
    ensures
        m.deleting(indices, k).error is Some <==> deletion_failed_before(m, indices, k as int),
        m.deleting(indices, k).tree.stores[si] == (if m.group(indices, si).len() == 0
            || deletion_failed_before(m, indices, si) {
            m.stores[si]
        } else {
            m.stores[si].remove_some(m.group(indices, si)).0
        }),
    decreases k,
{
    let last = k - 1;
    lemma_deleting(m, indices, last as nat);
    if last > 0 {
        lemma_deleting_files(m, indices, last as nat, 0);
    }
    let run = m.deleting(indices, last as nat);
    assert(run.error is Some <==> deletion_failed_before(m, indices, last));
    assert(run.tree.stores[last] == m.stores[last]);
    let out = deletion_in(m, indices, last);
    if deletion_failed_before(m, indices, last) {
        let j = choose|j: int| 0 <= j < last && #[trigger] deletion_in(m, indices, j) is Error;
        assert(deletion_in(m, indices, j) is Error);
    }
    if out is Error {
        assert(deletion_failed_before(m, indices, k as int));
    }
    if si < last {
        lemma_deleting_files(m, indices, last as nat, si);
    }
}

/// A bulk deletion works on each file by itself: a file with no chosen task, or
/// behind one that reports an error, stays as it is; any other is changed as
/// its store would change it alone.
pub proof fn bulk_deletion_goes_file_by_file(m: TreeView, indices: Seq<usize>, si: int)
    requires
        0 <= si < m.stores.len(),
    ensures
        m.delete_indices(indices).0.stores[si] == (if m.group(indices, si).len() == 0
            || deletion_failed_before(m, indices, si) {
            m.stores[si]
        } else {
            m.stores[si].remove_some(m.group(indices, si)).0
        }),
{
    lemma_deleting_files(m, indices, m.stores.len(), si);
}

proof fn lemma_deleting_error(m: TreeView, indices: Seq<usize>, k: nat)
    requires
        k <= m.stores.len(),
    ensures
        ({
            let run = m.deleting(indices, k);
            &&& run.error matches Some(e) ==> exists|si: int|
                0 <= si < k && #[trigger] deletion_in(m, indices, si) == BulkDeleteOutcome::Error(e)
                    && !deletion_failed_before(m, indices, si)
            &&& run.error is None ==> !deletion_failed_before(m, indices, k as int)
        }),
    decreases k,
{
    if k > 0 {
        let last = k - 1;
        lemma_deleting_error(m, indices, last as nat);
        lemma_deleting(m, indices, last as nat);
        let before = m.deleting(indices, last as nat);
        let out = deletion_in(m, indices, last);
        assert(before.tree.stores[last] == m.stores[last]);
        if before.error is None && out is Error {
            assert(!deletion_failed_before(m, indices, last));
        }
    }
}

/// File `si` is the last of the first `k` that was aborted, and `r` is why.
pub open spec fn deletion_aborted_last(
    m: TreeView,
    indices: Seq<usize>,
    k: int,
    si: int,
    r: Reconcile,
) -> bool {
    &&& 0 <= si < k
    &&& deletion_in(m, indices, si) == BulkDeleteOutcome::Aborted(r)
    &&& forall|j: int| si < j < k ==> !(#[trigger] deletion_in(m, indices, j) is Aborted)
}

proof fn lemma_deleting_abort(m: TreeView, indices: Seq<usize>, k: nat)
    requires
        k <= m.stores.len(),
        m.deleting(indices, k).error is None,
    ensures
        match m.deleting(indices, k).aborted {
            Some(r) => exists|si: int| deletion_aborted_last(m, indices, k as int, si, r),
            None => forall|si: int|
                0 <= si < k ==> !(#[trigger] deletion_in(m, indices, si) is Aborted),
        },
    decreases k,
{
    if k > 0 {
        let last = k - 1;
        lemma_deleting(m, indices, last as nat);
        let before = m.deleting(indices, last as nat);
        let run = m.deleting(indices, k);
        let out = deletion_in(m, indices, last);
        assert(before.tree.stores[last] == m.stores[last]);
        assert(before.error is None);
        lemma_deleting_abort(m, indices, last as nat);
        if out is Aborted {
            assert(deletion_aborted_last(m, indices, k as int, last, run.aborted->0));
        } else {
            assert(run.aborted == before.aborted);
            if let Some(r) = before.aborted {
                let si = choose|si: int| deletion_aborted_last(m, indices, last, si, r);
                assert(deletion_aborted_last(m, indices, k as int, si, r));
            }
        }
    }
}

proof fn lemma_deleting_counts(m: TreeView, indices: Seq<usize>, k: nat)
    requires
        k <= m.stores.len(),
        m.deleting(indices, k).error is None,
    ensures
        m.deleting(indices, k).deleted == total(k, |si: int| deleted_in(m, indices, si)),
    decreases k,
{
    if k > 0 {
        let last = k - 1;
        lemma_deleting(m, indices, last as nat);
        let before = m.deleting(indices, last as nat);
        assert(before.tree.stores[last] == m.stores[last]);
        assert(before.error is None);
        lemma_deleting_counts(m, indices, last as nat);
    }
}

/// What a bulk deletion reports: the error of the first file that has one; or
/// else the abort of the last file that has one; or else the counts of all
/// files together.
pub proof fn bulk_deletion_reports(m: TreeView, indices: Seq<usize>)
    requires
        tree::slots(m.stores).len() <= usize::MAX,
        forall|i: int| 0 <= i < m.stores.len() ==> (#[trigger] m.stores[i]).lines.len() <= usize::MAX,
    ensures
        ({
            let n = m.stores.len() as int;
            match m.delete_indices(indices).1 {
                BulkDeleteOutcome::Error(e) => exists|si: int|
                    0 <= si < n && #[trigger] deletion_in(m, indices, si) == BulkDeleteOutcome::Error(e)
                        && !deletion_failed_before(m, indices, si),
                BulkDeleteOutcome::Aborted(r) => {
                    &&& !deletion_failed_before(m, indices, n)
                    &&& exists|si: int| deletion_aborted_last(m, indices, n, si, r)
                },
                BulkDeleteOutcome::Done { deleted } => {
                    &&& forall|si: int|
                        0 <= si < n ==> #[trigger] deletion_in(m, indices, si) is Done || deletion_in(
                            m,
                            indices,
                            si,
                        ) is Nothing
                    &&& deleted == total(n as nat, |si: int| deleted_in(m, indices, si))
                    &&& deleted > 0
                },
                BulkDeleteOutcome::Nothing => forall|si: int|
                    0 <= si < n ==> #[trigger] deletion_in(m, indices, si) is Nothing,
            }
        }),
{
    let n = m.stores.len();
    lemma_deleting_error(m, indices, n);
    if m.deleting(indices, n).error is None {
        lemma_deleting_abort(m, indices, n);
        lemma_deleting_counts(m, indices, n);
    }
    tree::lemma_deleting(m, indices, n);
    tree::lemma_lines_before_all(m.stores, n as int);
    let run = m.deleting(indices, n);
    if run.error is None && run.aborted is None {
        assert forall|si: int| 0 <= si < n implies #[trigger] deletion_in(m, indices, si) is Done
            || deletion_in(m, indices, si) is Nothing by {
            if deletion_in(m, indices, si) is Error {
                assert(deletion_failed_before(m, indices, n as int));
            }
        }
        let f = |si: int| deleted_in(m, indices, si);
        assert forall|si: int| 0 <= si < n implies #[trigger] f(si) >= 0 by {}
        if run.deleted == 0 {
            assert forall|si: int| 0 <= si < n implies #[trigger] deletion_in(m, indices, si)
                is Nothing by {
                if deletion_in(m, indices, si) is Done {
                    store::bulk_counts_fit(m.stores[si], m.group(indices, si));
                    lemma_total_part(n, f, si);
                }
            }
        }
    }
}

proof fn lemma_left_over_all(lines: Seq<Seq<char>>, locals: Seq<usize>, k: nat)
    requires
        k <= lines.len(),
    ensures
        store::left_over(lines, locals, k).len() <= k,
        store::left_over(lines, locals, k).len() == k ==> store::left_over(lines, locals, k)
            == lines.take(k as int),
    decreases k,
{
    if k > 0 {
        lemma_left_over_all(lines, locals, (k - 1) as nat);
        assert(lines.take(k as int) =~= lines.take(k - 1).push(lines[k - 1]));
    } else {
        assert(lines.take(0) =~= Seq::<Seq<char>>::empty());
    }
}

/// When a bulk deletion goes through in every file, each file keeps exactly
/// its lines that were not chosen, in order.
pub proof fn bulk_deletion_keeps_the_rest(m: TreeView, indices: Seq<usize>, si: int)
    requires
        m.delete_indices(indices).1 is Done || m.delete_indices(indices).1 is Nothing,
        0 <= si < m.stores.len(),
    ensures
        m.delete_indices(indices).0.stores[si].lines == store::left_over(
            m.stores[si].lines,
            m.group(indices, si),
            m.stores[si].lines.len(),
        ),
{
    let n = m.stores.len();
    let k = si as nat;
    let s = m.stores[si];
    let locals = m.group(indices, si);
    lemma_deleting_went_well(m, indices, k + 1, n);
    lemma_deleting_went_well(m, indices, k, n);
    lemma_deleting(m, indices, k);
    lemma_deleting_keeps(m, indices, k + 1, n, si);
    assert(m.deleting(indices, k).tree.stores[si] == s);
    lemma_left_over_all(s.lines, locals, s.lines.len());
    assert(s.lines.take(s.lines.len() as int) =~= s.lines);
    if locals.len() == 0 {
        lemma_left_over_none(s.lines, locals, s.lines.len());
    }
}

proof fn lemma_left_over_none(lines: Seq<Seq<char>>, locals: Seq<usize>, k: nat)
    requires
        k <= lines.len(),
        locals.len() == 0,
    ensures
        store::left_over(lines, locals, k).len() == k,
    decreases k,
{
    if k > 0 {
        lemma_left_over_none(lines, locals, (k - 1) as nat);
    }
}

// ---- archiving ----

/// What archiving file `si` reports, taken by itself.
pub open spec fn archiving_in(m: TreeView, si: int) -> ArchiveOutcome {
    m.stores[si].archive_done().1
}

/// A file before `si` was aborted or reports an error.
pub open spec fn archiving_stopped_before(m: TreeView, si: int) -> bool {
    exists|j: int|
        0 <= j < si && (#[trigger] archiving_in(m, j) is Aborted || archiving_in(m, j) is Error)
}

/// How many tasks are archived in file `si`.
pub open spec fn archived_in(m: TreeView, si: int) -> int {
    match archiving_in(m, si) {
        ArchiveOutcome::Archived { count } => count as int,
        _ => 0,
    }
}

proof fn lemma_archiving_files(m: TreeView, k: nat)
    requires
        k <= m.stores.len(),
    ensures
        ({
            let run = m.archiving(k);
            &&& run.tree.stores.len() == m.stores.len()
            &&& forall|i: int|
                k <= i < m.stores.len() ==> #[trigger] run.tree.stores[i] == m.stores[i]
            &&& forall|i: int|
                0 <= i < k ==> #[trigger] run.tree.stores[i] == (if archiving_stopped_before(
                    m,
                    i,
                ) {
                    m.stores[i]
                } else {
                    m.stores[i].archive_done().0
                })
            &&& run.stop is None ==> !archiving_stopped_before(m, k as int) && run.total == total(
                k,
                |si: int| archived_in(m, si),
            )
            &&& run.stop matches Some(out) ==> (out is Aborted || out is Error) && exists|si: int|
                0 <= si < k && #[trigger] archiving_in(m, si) == out && !archiving_stopped_before(
                    m,
                    si,
                )
        }),
    decreases k,
{
    if k > 0 {
        let last = k - 1;
        lemma_archiving_files(m, last as nat);
        let before = m.archiving(last as nat);
        let run = m.archiving(k);
        let out = archiving_in(m, last);
        assert(before.tree.stores[last] == m.stores[last]);
        if before.stop is Some {
            let si = choose|si: int|
                0 <= si < last && #[trigger] archiving_in(m, si) == before.stop->0
                    && !archiving_stopped_before(m, si);
            assert(archiving_in(m, si) == run.stop->0);
            assert(archiving_stopped_before(m, last));
        } else if out is Aborted || out is Error {
            assert(archiving_in(m, last) == run.stop->0);
        }
    }
}

/// Archiving works on each file by itself: a file behind one that was aborted
/// or reports an error stays as it is; any other is archived as its store would
/// archive it alone.
pub proof fn archiving_goes_file_by_file(m: TreeView, si: int)
    requires
        0 <= si < m.stores.len(),
    ensures
        m.archive_all().0.stores[si] == (if archiving_stopped_before(m, si) {
            m.stores[si]
        } else {
            m.stores[si].archive_done().0
        }),
{
    lemma_archiving_files(m, m.stores.len());
}

/// What archiving reports: what the first file that was aborted or has an error
/// reports; or else the count of all files together.
pub proof fn archiving_reports(m: TreeView)
    requires
        tree::slots(m.stores).len() <= usize::MAX,
        forall|i: int| 0 <= i < m.stores.len() ==> (#[trigger] m.stores[i]).lines.len() <= usize::MAX,
    ensures
        ({
            let n = m.stores.len() as int;
            match m.archive_all().1 {
                ArchiveOutcome::Archived { count } => {
                    &&& !archiving_stopped_before(m, n)
                    &&& count == total(n as nat, |si: int| archived_in(m, si))
                    &&& count > 0
                },
                ArchiveOutcome::Nothing => forall|si: int|
                    0 <= si < n ==> #[trigger] archiving_in(m, si) is Nothing,
                out => exists|si: int|
                    0 <= si < n && #[trigger] archiving_in(m, si) == out
                        && !archiving_stopped_before(m, si),
            }
        }),
{
    let n = m.stores.len();
    lemma_archiving_files(m, n);
    tree::lemma_archiving(m, n);
    tree::lemma_lines_before_all(m.stores, n as int);
    let run = m.archiving(n);
    if run.stop is None && run.total == 0 {
        let f = |si: int| archived_in(m, si);
        assert forall|si: int| 0 <= si < n implies #[trigger] f(si) >= 0 by {}
        assert forall|si: int| 0 <= si < n implies #[trigger] archiving_in(m, si) is Nothing by {
            if archiving_in(m, si) is Archived {
                store::archive_count_fits(m.stores[si]);
                lemma_total_part(n, f, si);
            } else if !(archiving_in(m, si) is Nothing) {
                assert(archiving_stopped_before(m, n as int));
            }
        }
    }
}

proof fn lemma_with_done_canonical(lines: Seq<Seq<char>>, done: bool)
    requires
        todo::all_canonical(lines),
    ensures
        todo::all_canonical(store::with_done(lines, done)),
    decreases lines.len(),
{
    if lines.len() > 0 {
        let rest = lines.drop_last();
        assert forall|i: int| 0 <= i < rest.len() implies line::canonical(#[trigger] rest[i]) by {
            assert(rest[i] == lines[i]);
        }
        lemma_with_done_canonical(rest, done);
        assert(line::canonical(lines[lines.len() - 1]));
    }
}

/// Archiving loses nothing: the completed tasks of a file stand in its archive
/// after what stood there before, and the other tasks stay.
pub proof fn archived_tasks_stand_in_the_archive(s: StoreView)
    requires
        todo::all_canonical(s.lines),
        s.archive_done().1 is Archived,
    ensures
        s.done_file.text is Some,
        s.archive_done().0.archive.lines == todo::task_lines(s.done_file.text->0)
            + store::with_done(s.lines, true),
        s.archive_done().0.lines == store::with_done(s.lines, false),
        s.archive_done().0.done_file.text matches Some(t) && todo::task_lines(t)
            == s.archive_done().0.archive.lines,
{
    lemma_with_done_canonical(s.lines, true);
    todo::appended_lines_read_back(s.done_file.text->0, store::with_done(s.lines, true));
}

} // verus!
