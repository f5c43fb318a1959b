//! What undo takes back.
use crate::bulk_laws;
use crate::store;
use crate::store::StoreView;
use crate::tree;
use crate::tree::TreeView;
use crate::tree_laws;
use vstd::prelude::*;

verus! {

/// A call that can change tasks and be undone.
pub enum Call {
    Toggle { abs: int },
    Prioritize { abs: int },
    Remove { abs: int },
    Edit { abs: int, text: Seq<char> },
    Retag { abs: int, sign: char, name: Seq<char>, toggle: bool },
    Add { text: Seq<char> },
    CompleteMany { indices: Seq<usize> },
    DeleteMany { indices: Seq<usize> },
}

impl Call {
    /// The call works on one file at most.
    pub open spec fn is_single(self) -> bool {
        !(self is CompleteMany) && !(self is DeleteMany)
    }
}

/// The tree after a call.
pub open spec fn after(m: TreeView, c: Call) -> TreeView {
    match c {
        Call::Toggle { abs } => m.toggle_at(abs).0,
        Call::Prioritize { abs } => m.prioritize_at(abs).0,
        Call::Remove { abs } => m.remove_at(abs).0,
        Call::Edit { abs, text } => m.edit_at(abs, text).0,
        Call::Retag { abs, sign, name, toggle } => m.retag_at(abs, sign, name, toggle).0,
        Call::Add { text } => m.add_task(text).0,
        Call::CompleteMany { indices } => m.complete_indices(indices).0,
        Call::DeleteMany { indices } => m.delete_indices(indices).0,
    }
}

/// The call changed file `si`: there is one more change of it to undo.
pub open spec fn changes(m: TreeView, c: Call, si: int) -> bool {
    after(m, c).stores[si].history.len() > m.stores[si].history.len()
}

/// The call changed no file.
pub open spec fn changes_nothing(m: TreeView, c: Call) -> bool {
    forall|si: int| 0 <= si < m.stores.len() ==> !#[trigger] changes(m, c, si)
}

/// The tree after some calls.
pub open spec fn after_all(m: TreeView, calls: Seq<Call>) -> TreeView
    decreases calls.len(),
{
    if calls.len() == 0 {
        m
    } else {
        after(after_all(m, calls.drop_last()), calls.last())
    }
}

/// None of the calls, made one after the other, changed a file.
pub open spec fn all_change_nothing(m: TreeView, calls: Seq<Call>) -> bool
    decreases calls.len(),
{
    calls.len() > 0 ==> all_change_nothing(m, calls.drop_last()) && changes_nothing(
        after_all(m, calls.drop_last()),
        calls.last(),
    )
}

/// Undo, some times over.
pub open spec fn undo_times(m: TreeView, n: nat) -> TreeView
    decreases n,
{
    if n == 0 {
        m
    } else {
        undo_times(m.undone().0, (n - 1) as nat)
    }
}

/// The file is as its store last read or wrote it.
pub open spec fn is_current(s: StoreView) -> bool {
    s.file.text == Some(s.synced)
}

/// `t` is what a change left behind of `s`: the change can be undone.
pub open spec fn is_change_of(t: StoreView, s: StoreView) -> bool {
    &&& s.file.writable
    &&& exists|lines: Seq<Seq<char>>| t == #[trigger] s.committed(lines)
}

proof fn lemma_change(t: StoreView, s: StoreView)
    requires
        is_change_of(t, s),
    ensures
        is_current(t),
        t.history.len() > s.history.len(),
        t.undone().1 is Undone,
        t.undone().0.lines == s.lines,
        t.undone().0.history == s.history,
{
    let lines = choose|lines: Seq<Seq<char>>| t == #[trigger] s.committed(lines);
    assert(t.guarded() == (t, None::<store::Stop>));
    assert(t.history.drop_last() =~= s.history);
}

/// What a call does to a store: it changed it, or the history did not grow and
/// a store that was current stays as it was.
spec fn is_step(s: StoreView, t: StoreView, changed: bool) -> bool {
    if changed {
        is_change_of(t, s)
    } else {
        &&& t.history.len() <= s.history.len()
        &&& is_current(s) ==> t == s
    }
}

proof fn lemma_guarded(s: StoreView)
    ensures
        s.guarded().0.history.len() <= s.history.len(),
        is_current(s) ==> s.guarded().0 == s,
        s.guarded().1 is None ==> s.guarded().0 == s && s.file.writable,
{
}

proof fn lemma_store_steps(
    s: StoreView,
    li: int,
    text: Seq<char>,
    sign: char,
    name: Seq<char>,
    toggle: bool,
)
    ensures
        is_step(s, s.toggle(li).0, s.toggle(li).1 is Completed || s.toggle(li).1 is Reopened),
        is_step(s, s.prioritize(li).0, s.prioritize(li).1 is Changed),
        is_step(s, s.remove(li).0, s.remove(li).1 is Deleted),
        is_step(s, s.edit(li, text).0, s.edit(li, text).1 is Edited),
        is_step(
            s,
            s.retag(li, sign, name, toggle).0,
            s.retag(li, sign, name, toggle).1 is Added || s.retag(li, sign, name, toggle).1
                is Removed,
        ),
        is_step(s, s.add(text).0, s.add(text).1 is Added),
{
    lemma_guarded(s);
    lemma_committed(s, s.toggle(li).0);
    lemma_committed(s, s.prioritize(li).0);
    lemma_committed(s, s.remove(li).0);
    lemma_committed(s, s.edit(li, text).0);
    lemma_committed(s, s.retag(li, sign, name, toggle).0);
    lemma_committed(s, s.add(text).0);
}

proof fn lemma_committed(s: StoreView, t: StoreView)
    ensures
        s.file.writable && t == s.committed(t.lines) ==> is_change_of(t, s),
{
}

proof fn lemma_bulk_steps(s: StoreView, locals: Seq<usize>)
    ensures
        is_step(s, s.complete_some(locals).0, s.complete_some(locals).1 is Done),
        is_step(s, s.remove_some(locals).0, s.remove_some(locals).1 is Done),
{
    lemma_committed(s, s.complete_some(locals).0);
    lemma_committed(s, s.remove_some(locals).0);
}

/// The file that a call on one file works on, if there is one.
pub open spec fn file_of(m: TreeView, c: Call) -> Option<int> {
    match c {
        Call::Toggle { abs } => located_file(m, abs),
        Call::Prioritize { abs } => located_file(m, abs),
        Call::Remove { abs } => located_file(m, abs),
        Call::Edit { abs, .. } => located_file(m, abs),
        Call::Retag { abs, .. } => located_file(m, abs),
        Call::Add { .. } => Some(m.root_index()),
        _ => None,
    }
}

/// The file of the task at `abs`.
pub open spec fn located_file(m: TreeView, abs: int) -> Option<int> {
    match m.located(abs) {
        Some((si, _)) => Some(si as int),
        None => None,
    }
}

/// The index of the task at `abs` in its file.
spec fn local_of(m: TreeView, abs: int) -> int {
    match m.located(abs) {
        Some((_, li)) => li as int,
        None => 0,
    }
}

proof fn lemma_file_of(m: TreeView, c: Call)
    requires
        0 < m.stores.len() <= usize::MAX,
    ensures
        file_of(m, c) matches Some(si) ==> 0 <= si < m.stores.len(),
{
    tree_laws::lemma_store_over_range(m.stores, m.root_todo(), 0);
    match c {
        Call::Toggle { abs } => lemma_located(m, abs),
        Call::Prioritize { abs } => lemma_located(m, abs),
        Call::Remove { abs } => lemma_located(m, abs),
        Call::Edit { abs, .. } => lemma_located(m, abs),
        Call::Retag { abs, .. } => lemma_located(m, abs),
        _ => {},
    }
}

proof fn lemma_located(m: TreeView, abs: int)
    requires
        m.stores.len() <= usize::MAX,
    ensures
        located_file(m, abs) matches Some(si) ==> 0 <= si < m.stores.len(),
{
    if m.located(abs) is Some {
        lemma_slots(m.stores, abs);
    }
}

proof fn lemma_slots(stores: Seq<StoreView>, i: int)
    requires
        stores.len() <= usize::MAX,
        0 <= i < tree::slots(stores).len(),
    ensures
        tree::slots(stores)[i].0 < stores.len(),
    decreases stores.len(),
{
    if stores.len() > 0 {
        let before = tree::slots(stores.drop_last());
        if i < before.len() {
            lemma_slots(stores.drop_last(), i);
        }
    }
}

/// A call on one file changes no other, and is remembered exactly when it
/// changed that one: an aborted call, one that failed, and one that left the
/// task as it was are not.
pub proof fn exactly_the_changes_are_remembered(m: TreeView, c: Call, si: int)
    requires
        c.is_single(),
        0 < m.stores.len() <= usize::MAX,
        0 <= si < m.stores.len(),
    ensures
        after(m, c).stores.len() == m.stores.len(),
        file_of(m, c) != Some(si) ==> after(m, c).stores[si] == m.stores[si],
        changes(m, c, si) ==> is_change_of(after(m, c).stores[si], m.stores[si]) && after(
            m,
            c,
        ).undo_order == m.undo_order.push(si as usize),
        !changes(m, c, si) && is_current(m.stores[si]) ==> after(m, c).stores[si] == m.stores[si],
        changes_nothing(m, c) ==> after(m, c).undo_order == m.undo_order,
{
    lemma_file_of(m, c);
    if let Some(at) = file_of(m, c) {
        let s = m.stores[at];
        let t = after(m, c).stores[at];
        match c {
            Call::Toggle { abs } => {
                lemma_store_steps(s, local_of(m, abs), Seq::empty(), '+', Seq::empty(), false);
            },
            Call::Prioritize { abs } => {
                lemma_store_steps(s, local_of(m, abs), Seq::empty(), '+', Seq::empty(), false);
            },
            Call::Remove { abs } => {
                lemma_store_steps(s, local_of(m, abs), Seq::empty(), '+', Seq::empty(), false);
            },
            Call::Edit { abs, text } => {
                lemma_store_steps(s, local_of(m, abs), text, '+', Seq::empty(), false);
            },
            Call::Retag { abs, sign, name, toggle } => {
                lemma_store_steps(s, local_of(m, abs), Seq::empty(), sign, name, toggle);
            },
            Call::Add { text } => {
                lemma_store_steps(s, 0, text, '+', Seq::empty(), false);
            },
            _ => {},
        }
        if is_change_of(t, s) {
            lemma_change(t, s);
            assert(changes(m, c, at));
        }
    }
}

proof fn lemma_completing_steps(m: TreeView, indices: Seq<usize>, k: nat)
    requires
        k <= m.stores.len(),
    ensures
        ({
            let run = m.completing(indices, k).tree;
            &&& forall|i: int|
                0 <= i < k ==> is_step(
                    m.stores[i],
                    #[trigger] run.stores[i],
                    run.stores[i].history.len() > m.stores[i].history.len(),
                )
            &&& (forall|i: int|
                0 <= i < k ==> (#[trigger] run.stores[i]).history.len()
                    <= m.stores[i].history.len()) ==> run.undo_order == m.undo_order
        }),
    decreases k,
{
    if k > 0 {
        let si = k - 1;
        lemma_completing_steps(m, indices, si as nat);
        bulk_laws::lemma_completing(m, indices, si as nat);
        let before = m.completing(indices, si as nat).tree;
        let run = m.completing(indices, k).tree;
        let s = m.stores[si];
        assert(before.stores[si] == s);
        lemma_bulk_steps(s, m.group(indices, si));
        if is_change_of(run.stores[si], s) {
            lemma_change(run.stores[si], s);
        }
        assert forall|i: int| 0 <= i < si implies #[trigger] run.stores[i] == before.stores[i] by {}
        if forall|i: int|
            0 <= i < k ==> (#[trigger] run.stores[i]).history.len() <= m.stores[i].history.len() {
            assert forall|i: int| 0 <= i < si implies (#[trigger] before.stores[i]).history.len()
                <= m.stores[i].history.len() by {
                assert(run.stores[i] == before.stores[i]);
            }
            assert(run.stores[si].history.len() <= s.history.len());
        }
    }
}

proof fn lemma_undo_completing(m: TreeView, indices: Seq<usize>, k: nat, t: TreeView)
    requires
        k <= m.stores.len() <= usize::MAX,
        t.stores.len() == m.stores.len(),
        t.undo_order == m.completing(indices, k).tree.undo_order,
        forall|i: int|
            0 <= i < k && m.completing(indices, k).tree.stores[i].history.len()
                > m.stores[i].history.len() ==> #[trigger] t.stores[i] == m.completing(
                indices,
                k,
            ).tree.stores[i],
    ensures
        ({
            let run = m.completing(indices, k).tree;
            let back = undo_times(t, (t.undo_order.len() - m.undo_order.len()) as nat);
            &&& back.undo_order == m.undo_order
            &&& back.stores.len() == m.stores.len()
            &&& forall|i: int|
                0 <= i < m.stores.len() ==> if i < k && run.stores[i].history.len()
                    > m.stores[i].history.len() {
                    (#[trigger] back.stores[i]).lines == m.stores[i].lines
                } else {
                    back.stores[i] == t.stores[i]
                }
        }),
    decreases k,
{
    if k > 0 {
        let si = k - 1;
        let before = m.completing(indices, si as nat).tree;
        let run = m.completing(indices, k).tree;
        bulk_laws::lemma_completing(m, indices, si as nat);
        let s = m.stores[si];
        assert(before.stores[si] == s);
        lemma_bulk_steps(s, m.group(indices, si));
        assert forall|i: int| 0 <= i < si implies #[trigger] run.stores[i] == before.stores[i] by {}
        if m.completing(indices, si as nat).error is None && m.group(indices, si).len() > 0
            && s.complete_some(m.group(indices, si)).1 is Done {
            lemma_change(run.stores[si], s);
            assert(t.stores[si] == run.stores[si]);
            assert(t.undo_order.last() == si as usize);
            let u = t.undone().0;
            assert(u.undo_order =~= before.undo_order);
            assert forall|i: int|
                0 <= i < si && before.stores[i].history.len()
                    > m.stores[i].history.len() implies #[trigger] u.stores[i]
                == before.stores[i] by {
                assert(run.stores[i] == before.stores[i]);
                assert(t.stores[i] == run.stores[i]);
            }
            lemma_undo_completing(m, indices, si as nat, u);
            let n = (t.undo_order.len() - m.undo_order.len()) as nat;
            let back = undo_times(t, n);
            assert(back == undo_times(u, (n - 1) as nat));
            assert forall|i: int| 0 <= i < m.stores.len() implies if i < k
                && run.stores[i].history.len() > m.stores[i].history.len() {
                (#[trigger] back.stores[i]).lines == m.stores[i].lines
            } else {
                back.stores[i] == t.stores[i]
            } by {
                if i < si {
                    assert(run.stores[i] == before.stores[i]);
                }
            }
        } else {
            assert(run.undo_order == before.undo_order);
            assert(run.stores[si].history.len() <= s.history.len());
            assert forall|i: int|
                0 <= i < si && before.stores[i].history.len()
                    > m.stores[i].history.len() implies #[trigger] t.stores[i]
                == before.stores[i] by {
                assert(run.stores[i] == before.stores[i]);
            }
            lemma_undo_completing(m, indices, si as nat, t);
            let back = undo_times(t, (t.undo_order.len() - m.undo_order.len()) as nat);
            assert forall|i: int| 0 <= i < m.stores.len() implies if i < k
                && run.stores[i].history.len() > m.stores[i].history.len() {
                (#[trigger] back.stores[i]).lines == m.stores[i].lines
            } else {
                back.stores[i] == t.stores[i]
            } by {
                if i < si {
                    assert(run.stores[i] == before.stores[i]);
                }
            }
        }
    }
}

proof fn lemma_deleting_steps(m: TreeView, indices: Seq<usize>, k: nat)
    requires
        k <= m.stores.len(),
    ensures
        ({
            let run = m.deleting(indices, k).tree;
            &&& forall|i: int|
                0 <= i < k ==> is_step(
                    m.stores[i],
                    #[trigger] run.stores[i],
                    run.stores[i].history.len() > m.stores[i].history.len(),
                )
            &&& (forall|i: int|
                0 <= i < k ==> (#[trigger] run.stores[i]).history.len()
                    <= m.stores[i].history.len()) ==> run.undo_order == m.undo_order
        }),
    decreases k,
{
    if k > 0 {
        let si = k - 1;
        lemma_deleting_steps(m, indices, si as nat);
        bulk_laws::lemma_deleting(m, indices, si as nat);
        let before = m.deleting(indices, si as nat).tree;
        let run = m.deleting(indices, k).tree;
        let s = m.stores[si];
        assert(before.stores[si] == s);
        lemma_bulk_steps(s, m.group(indices, si));
        if is_change_of(run.stores[si], s) {
            lemma_change(run.stores[si], s);
        }
        assert forall|i: int| 0 <= i < si implies #[trigger] run.stores[i] == before.stores[i] by {}
        if forall|i: int|
            0 <= i < k ==> (#[trigger] run.stores[i]).history.len() <= m.stores[i].history.len() {
            assert forall|i: int| 0 <= i < si implies (#[trigger] before.stores[i]).history.len()
                <= m.stores[i].history.len() by {
                assert(run.stores[i] == before.stores[i]);
            }
            assert(run.stores[si].history.len() <= s.history.len());
        }
    }
}

proof fn lemma_undo_deleting(m: TreeView, indices: Seq<usize>, k: nat, t: TreeView)
    requires
        k <= m.stores.len() <= usize::MAX,
        t.stores.len() == m.stores.len(),
        t.undo_order == m.deleting(indices, k).tree.undo_order,
        forall|i: int|
            0 <= i < k && m.deleting(indices, k).tree.stores[i].history.len()
                > m.stores[i].history.len() ==> #[trigger] t.stores[i] == m.deleting(
                indices,
                k,
            ).tree.stores[i],
    ensures
        ({
            let run = m.deleting(indices, k).tree;
            let back = undo_times(t, (t.undo_order.len() - m.undo_order.len()) as nat);
            &&& back.undo_order == m.undo_order
            &&& back.stores.len() == m.stores.len()
            &&& forall|i: int|
                0 <= i < m.stores.len() ==> if i < k && run.stores[i].history.len()
                    > m.stores[i].history.len() {
                    (#[trigger] back.stores[i]).lines == m.stores[i].lines
                } else {
                    back.stores[i] == t.stores[i]
                }
        }),
    decreases k,
{
    if k > 0 {
        let si = k - 1;
        let before = m.deleting(indices, si as nat).tree;
        let run = m.deleting(indices, k).tree;
        bulk_laws::lemma_deleting(m, indices, si as nat);
        let s = m.stores[si];
        assert(before.stores[si] == s);
        lemma_bulk_steps(s, m.group(indices, si));
        assert forall|i: int| 0 <= i < si implies #[trigger] run.stores[i] == before.stores[i] by {}
        if m.deleting(indices, si as nat).error is None && m.group(indices, si).len() > 0
            && s.remove_some(m.group(indices, si)).1 is Done {
            lemma_change(run.stores[si], s);
            assert(t.stores[si] == run.stores[si]);
            assert(t.undo_order.last() == si as usize);
            let u = t.undone().0;
            assert(u.undo_order =~= before.undo_order);
            assert forall|i: int|
                0 <= i < si && before.stores[i].history.len()
                    > m.stores[i].history.len() implies #[trigger] u.stores[i]
                == before.stores[i] by {
                assert(run.stores[i] == before.stores[i]);
                assert(t.stores[i] == run.stores[i]);
            }
            lemma_undo_deleting(m, indices, si as nat, u);
            let n = (t.undo_order.len() - m.undo_order.len()) as nat;
            let back = undo_times(t, n);
            assert(back == undo_times(u, (n - 1) as nat));
            assert forall|i: int| 0 <= i < m.stores.len() implies if i < k
                && run.stores[i].history.len() > m.stores[i].history.len() {
                (#[trigger] back.stores[i]).lines == m.stores[i].lines
            } else {
                back.stores[i] == t.stores[i]
            } by {
                if i < si {
                    assert(run.stores[i] == before.stores[i]);
                }
            }
        } else {
            assert(run.undo_order == before.undo_order);
            assert(run.stores[si].history.len() <= s.history.len());
            assert forall|i: int|
                0 <= i < si && before.stores[i].history.len()
                    > m.stores[i].history.len() implies #[trigger] t.stores[i]
                == before.stores[i] by {
                assert(run.stores[i] == before.stores[i]);
            }
            lemma_undo_deleting(m, indices, si as nat, t);
            let back = undo_times(t, (t.undo_order.len() - m.undo_order.len()) as nat);
            assert forall|i: int| 0 <= i < m.stores.len() implies if i < k
                && run.stores[i].history.len() > m.stores[i].history.len() {
                (#[trigger] back.stores[i]).lines == m.stores[i].lines
            } else {
                back.stores[i] == t.stores[i]
            } by {
                if i < si {
                    assert(run.stores[i] == before.stores[i]);
                }
            }
        }
    }
}

/// A call that changes nothing is not remembered, and leaves every file that
/// was as its store knew it.
pub proof fn idle_call_leaves_current_files(m: TreeView, c: Call)
    requires
        0 < m.stores.len() <= usize::MAX,
        changes_nothing(m, c),
    ensures
        after(m, c).undo_order == m.undo_order,
        after(m, c).stores.len() == m.stores.len(),
        forall|si: int|
            0 <= si < m.stores.len() && is_current(m.stores[si]) ==> #[trigger] after(
                m,
                c,
            ).stores[si] == m.stores[si],
{
    let t = after(m, c);
    let n = m.stores.len();
    match c {
        Call::CompleteMany { indices } => {
            bulk_laws::lemma_completing(m, indices, n);
            lemma_completing_steps(m, indices, n);
            assert forall|si: int| 0 <= si < n implies (#[trigger] t.stores[si]).history.len()
                <= m.stores[si].history.len() by {
                assert(!changes(m, c, si));
            }
        },
        Call::DeleteMany { indices } => {
            bulk_laws::lemma_deleting(m, indices, n);
            lemma_deleting_steps(m, indices, n);
            assert forall|si: int| 0 <= si < n implies (#[trigger] t.stores[si]).history.len()
                <= m.stores[si].history.len() by {
                assert(!changes(m, c, si));
            }
        },
        _ => {
            exactly_the_changes_are_remembered(m, c, 0);
            assert forall|si: int|
                0 <= si < n && is_current(m.stores[si]) implies #[trigger] t.stores[si]
                == m.stores[si] by {
                exactly_the_changes_are_remembered(m, c, si);
                assert(!changes(m, c, si));
            }
        },
    }
}

proof fn lemma_idle(m: TreeView, idle: Seq<Call>)
    requires
        0 < m.stores.len() <= usize::MAX,
        all_change_nothing(m, idle),
    ensures
        after_all(m, idle).undo_order == m.undo_order,
        after_all(m, idle).stores.len() == m.stores.len(),
        forall|si: int|
            0 <= si < m.stores.len() && is_current(m.stores[si]) ==> #[trigger] after_all(
                m,
                idle,
            ).stores[si] == m.stores[si],
    decreases idle.len(),
{
    if idle.len() > 0 {
        lemma_idle(m, idle.drop_last());
        let t = after_all(m, idle.drop_last());
        idle_call_leaves_current_files(t, idle.last());
        assert forall|si: int|
            0 <= si < m.stores.len() && is_current(m.stores[si]) implies #[trigger] after_all(
            m,
            idle,
        ).stores[si] == m.stores[si] by {
            assert(t.stores[si] == m.stores[si]);
        }
    }
}

/// However many calls that change nothing come after it, undo takes back the
/// last call that changed something: once for each file that it changed. Each
/// of those files has the tasks that it had before the call, and no other file
/// is touched.
pub proof fn undo_reverts_the_last_change(m: TreeView, c: Call, idle: Seq<Call>, si: int)
    requires
        0 < m.stores.len() <= usize::MAX,
        all_change_nothing(after(m, c), idle),
        0 <= si < m.stores.len(),
    ensures
        ({
            let t = after_all(after(m, c), idle);
            let back = undo_times(t, (t.undo_order.len() - m.undo_order.len()) as nat);
            &&& back.undo_order == m.undo_order
            &&& back.stores.len() == m.stores.len()
            &&& changes(m, c, si) ==> back.stores[si].lines == m.stores[si].lines
            &&& !changes(m, c, si) ==> back.stores[si] == t.stores[si]
        }),
{
    let first = after(m, c);
    let t = after_all(first, idle);
    let n = m.stores.len();
    match c {
        Call::CompleteMany { indices } => {
            bulk_laws::lemma_completing(m, indices, n);
            lemma_completing_steps(m, indices, n);
            lemma_idle(first, idle);
            assert forall|i: int|
                0 <= i < n && first.stores[i].history.len()
                    > m.stores[i].history.len() implies #[trigger] t.stores[i] == first.stores[i] by {
                assert(is_step(m.stores[i], first.stores[i], true));
                lemma_change(first.stores[i], m.stores[i]);
            }
            lemma_undo_completing(m, indices, n, t);
        },
        Call::DeleteMany { indices } => {
            bulk_laws::lemma_deleting(m, indices, n);
            lemma_deleting_steps(m, indices, n);
            lemma_idle(first, idle);
            assert forall|i: int|
                0 <= i < n && first.stores[i].history.len()
                    > m.stores[i].history.len() implies #[trigger] t.stores[i] == first.stores[i] by {
                assert(is_step(m.stores[i], first.stores[i], true));
                lemma_change(first.stores[i], m.stores[i]);
            }
            lemma_undo_deleting(m, indices, n, t);
        },
        _ => {
            exactly_the_changes_are_remembered(m, c, si);
            lemma_idle(first, idle);
            if changes_nothing(m, c) {
                assert(!changes(m, c, si));
                assert(undo_times(t, 0) == t);
            } else {
                let at = choose|at: int| 0 <= at < n && #[trigger] changes(m, c, at);
                exactly_the_changes_are_remembered(m, c, at);
                lemma_change(first.stores[at], m.stores[at]);
                assert(t.stores[at] == first.stores[at]);
                assert(t.undo_order.last() == at as usize);
                assert(t.undo_order.drop_last() =~= m.undo_order);
                let u = t.undone().0;
                assert(undo_times(u, 0) == u);
                assert(undo_times(t, 1) == u);
            }
        },
    }
}

/// A call on one file that changed something is taken back by one undo, though
/// calls that change nothing came after it.
pub proof fn one_undo_reverts_a_single_call(m: TreeView, c: Call, idle: Seq<Call>, si: int)
    requires
        c.is_single(),
        0 < m.stores.len() <= usize::MAX,
        0 <= si < m.stores.len(),
        changes(m, c, si),
        all_change_nothing(after(m, c), idle),
    ensures
        ({
            let t = after_all(after(m, c), idle);
            let (back, out) = t.undone();
            &&& out is Undone
            &&& back.stores[si].lines == m.stores[si].lines
            &&& back.undo_order == m.undo_order
            &&& forall|i: int|
                0 <= i < m.stores.len() && i != si ==> #[trigger] back.stores[i] == t.stores[i]
        }),
{
    let first = after(m, c);
    let t = after_all(first, idle);
    exactly_the_changes_are_remembered(m, c, si);
    lemma_idle(first, idle);
    lemma_change(first.stores[si], m.stores[si]);
    assert(t.stores[si] == first.stores[si]);
    assert(t.undo_order.last() == si as usize);
    assert(t.undo_order.drop_last() =~= m.undo_order);
}

/// A call that goes through and is undone at once gives back the list as it
/// was.
pub proof fn a_call_and_its_undo_restore_the_list(m: TreeView, c: Call)
    requires
        0 < m.stores.len() <= usize::MAX,
        forall|i: int| 0 <= i < m.stores.len() ==> is_current(#[trigger] m.stores[i]),
    ensures
        ({
            let t = after(m, c);
            let back = undo_times(t, (t.undo_order.len() - m.undo_order.len()) as nat);
            tree::flat_lines(back.stores) == tree::flat_lines(m.stores) && back.undo_order
                == m.undo_order
        }),
{
    let t = after(m, c);
    let n = m.stores.len();
    let back = undo_times(t, (t.undo_order.len() - m.undo_order.len()) as nat);
    assert(after_all(t, Seq::empty()) == t);
    assert(all_change_nothing(t, Seq::empty()));
    undo_reverts_the_last_change(m, c, Seq::empty(), 0);
    assert forall|i: int| 0 <= i < n implies (#[trigger] back.stores[i]).lines
        == m.stores[i].lines by {
        undo_reverts_the_last_change(m, c, Seq::empty(), i);
        match c {
            Call::CompleteMany { indices } => {
                lemma_completing_steps(m, indices, n);
                assert(is_step(m.stores[i], t.stores[i], changes(m, c, i)));
            },
            Call::DeleteMany { indices } => {
                lemma_deleting_steps(m, indices, n);
                assert(is_step(m.stores[i], t.stores[i], changes(m, c, i)));
            },
            _ => {
                exactly_the_changes_are_remembered(m, c, i);
            },
        }
    }
    tree_laws::lemma_flat_lines_same(back.stores, m.stores);
}

} // verus!
