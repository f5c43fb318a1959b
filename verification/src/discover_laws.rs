//! What a search finds, said of the components of the paths.
use crate::discover;
use crate::discover::{DiscoveryView, EntryView, Visit};
use vstd::prelude::*;

verus! {

/// A directory name that is looked into: it does not begin with a dot and is
/// none of those that hold other people's files.
pub open spec fn is_looked_into(name: Seq<char>) -> bool {
    &&& name.len() == 0 || name[0] != '.'
    &&& name != "node_modules"@
    &&& name != "target"@
    &&& name != "vendor"@
}

/// The disk lists a directory `p`.
pub open spec fn lists_directory(
    disk: spec_fn(Seq<Seq<char>>) -> Option<Seq<EntryView>>,
    p: Seq<Seq<char>>,
) -> bool {
    p.len() > 0 && (disk(p.drop_last()) matches Some(es) && exists|k: int|
        0 <= k < es.len() && (#[trigger] es[k]).name == p.last() && es[k].is_dir)
}

/// The disk lists a plain file `p`.
pub open spec fn lists_file(
    disk: spec_fn(Seq<Seq<char>>) -> Option<Seq<EntryView>>,
    p: Seq<Seq<char>>,
) -> bool {
    p.len() > 0 && (disk(p.drop_last()) matches Some(es) && exists|k: int|
        0 <= k < es.len() && (#[trigger] es[k]).name == p.last() && !es[k].is_dir && es[k].is_file)
}

/// The path lies below `root`, ends in `todo.md`, and every component between
/// the two is a directory on the disk whose name is looked into.
pub open spec fn is_within_reach(
    disk: spec_fn(Seq<Seq<char>>) -> Option<Seq<EntryView>>,
    root: Seq<Seq<char>>,
    p: Seq<Seq<char>>,
) -> bool {
    &&& root.len() < p.len()
    &&& p.take(root.len() as int) == root
    &&& p[p.len() - 1] == "todo.md"@
    &&& lists_file(disk, p)
    &&& forall|i: int|
        root.len() <= i < p.len() - 1 ==> is_looked_into(#[trigger] p[i]) && lists_directory(
            disk,
            p.take(i + 1),
        )
}

proof fn lemma_step(
    disk: spec_fn(Seq<Seq<char>>) -> Option<Seq<EntryView>>,
    dir: Seq<Seq<char>>,
    p: Seq<Seq<char>>,
)
    ensures
        discover::leads_to(disk, dir, Visit::Descend, p) <==> p.len() > 0 && p.drop_last() == dir
            && is_looked_into(p.last()) && lists_directory(disk, p),
        discover::leads_to(disk, dir, Visit::Take, p) <==> p.len() > 0 && p.drop_last() == dir
            && p.last() == "todo.md"@ && lists_file(disk, p),
{
    if discover::leads_to(disk, dir, Visit::Descend, p) || discover::leads_to(
        disk,
        dir,
        Visit::Take,
        p,
    ) {
        assert(p.drop_last() =~= dir);
    }
    if p.len() > 0 && p.drop_last() == dir {
        assert(p =~= dir.push(p.last()));
        if let Some(es) = disk(dir) {
            if lists_directory(disk, p) && is_looked_into(p.last()) {
                let k = choose|k: int|
                    0 <= k < es.len() && (#[trigger] es[k]).name == p.last() && es[k].is_dir;
                assert(discover::visit_of(es[k].name, es[k].is_dir, es[k].is_file)
                    == Visit::Descend);
            }
            if lists_file(disk, p) && p.last() == "todo.md"@ {
                let k = choose|k: int|
                    0 <= k < es.len() && (#[trigger] es[k]).name == p.last() && !es[k].is_dir
                        && es[k].is_file;
                assert(discover::visit_of(es[k].name, es[k].is_dir, es[k].is_file) == Visit::Take);
            }
        }
    }
}

proof fn lemma_along(
    disk: spec_fn(Seq<Seq<char>>) -> Option<Seq<EntryView>>,
    root: Seq<Seq<char>>,
    way: Seq<Seq<Seq<char>>>,
    n: int,
)
    requires
        discover::is_way(disk, root, way),
        0 <= n < way.len(),
    ensures
        way[n].len() == root.len() + n,
        way[n].take(root.len() as int) == root,
        forall|i: int|
            root.len() <= i < way[n].len() ==> is_looked_into(#[trigger] way[n][i])
                && lists_directory(disk, way[n].take(i + 1)),
    decreases n,
{
    if n == 0 {
        assert(root.take(root.len() as int) =~= root);
    } else {
        lemma_along(disk, root, way, n - 1);
        let before = way[n - 1];
        let now = way[n];
        assert(discover::leads_to(disk, way[n - 1], Visit::Descend, way[n]));
        lemma_step(disk, before, now);
        assert(now.take(root.len() as int) =~= before.take(root.len() as int));
        assert forall|i: int| root.len() <= i < now.len() implies is_looked_into(#[trigger] now[i])
            && lists_directory(disk, now.take(i + 1)) by {
            if i < now.len() - 1 {
                assert(now[i] == before[i]);
                assert(now.take(i + 1) =~= before.take(i + 1));
            } else {
                assert(now.take(i + 1) =~= now);
            }
        }
    }
}

/// Whatever a search finds below `root` is a file `todo.md`, and no component
/// between the root and it begins with a dot or is `node_modules`, `target` or
/// `vendor`.
pub proof fn found_paths_avoid_skipped_directories(
    root: Seq<Seq<char>>,
    disk: spec_fn(Seq<Seq<char>>) -> Option<Seq<EntryView>>,
    n: nat,
    p: Seq<Seq<char>>,
)
    requires
        discover::searched(DiscoveryView::at(root), disk, n).found.contains(p),
    ensures
        is_within_reach(disk, root, p),
{
    discover::only_task_files_are_found(root, disk, n, p);
    let way = choose|way: Seq<Seq<Seq<char>>>| #[trigger]
        discover::is_way(disk, root, way) && discover::leads_to(disk, way.last(), Visit::Take, p);
    let last = way.len() - 1;
    lemma_along(disk, root, way, last);
    let dir = way[last];
    lemma_step(disk, dir, p);
    assert(p.take(root.len() as int) =~= dir.take(root.len() as int));
    assert forall|i: int| root.len() <= i < p.len() - 1 implies is_looked_into(#[trigger] p[i])
        && lists_directory(disk, p.take(i + 1)) by {
        assert(p[i] == dir[i]);
        assert(p.take(i + 1) =~= dir.take(i + 1));
    }
}

/// A search that has no directory left has found every `todo.md` that is
/// reached from the root through directories that can be read, none of which
/// begins with a dot or is `node_modules`, `target` or `vendor`.
pub proof fn every_path_within_reach_is_found(
    root: Seq<Seq<char>>,
    disk: spec_fn(Seq<Seq<char>>) -> Option<Seq<EntryView>>,
    n: nat,
    p: Seq<Seq<char>>,
)
    requires
        discover::searched(DiscoveryView::at(root), disk, n).pending.len() == 0,
        is_within_reach(disk, root, p),
    ensures
        discover::searched(DiscoveryView::at(root), disk, n).found.contains(p),
{
    let r = root.len() as int;
    let way = Seq::new((p.len() - r) as nat, |i: int| p.take(r + i));
    assert forall|i: int| 0 < i < way.len() implies discover::leads_to(
        disk,
        way[i - 1],
        Visit::Descend,
        #[trigger] way[i],
    ) by {
        let at = r + i - 1;
        assert(r <= at < p.len() - 1);
        assert(is_looked_into(p[at]));
        assert(lists_directory(disk, p.take(at + 1)));
        assert(way[i].drop_last() =~= way[i - 1]);
        assert(way[i].last() == p[at]);
        lemma_step(disk, way[i - 1], way[i]);
    }
    assert(way[0] == root);
    assert(discover::is_way(disk, root, way));
    assert(p.drop_last() =~= way.last());
    lemma_step(disk, way.last(), p);
    assert(discover::is_task_file(disk, root, p));
    discover::every_task_file_is_found(root, disk, n, p);
}

/// One entry decides for itself: a directory is entered unless its name begins
/// with a dot or is `node_modules`, `target` or `vendor`; a plain file is taken
/// exactly when it is called `todo.md`; anything else is ignored.
pub proof fn entries_are_judged_by_name_and_type(name: Seq<char>, is_dir: bool, is_file: bool)
    ensures
        discover::visit_of(name, is_dir, is_file) == Visit::Descend <==> is_dir && is_looked_into(
            name,
        ),
        discover::visit_of(name, is_dir, is_file) == Visit::Take <==> !is_dir && is_file && name
            == "todo.md"@,
{
}

} // verus!
