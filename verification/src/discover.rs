//! Finding the task files below a directory.
//!
//! The search says which directory to list next and is told what listing it
//! gave; reading directories is the caller's.
use crate::path::TreePath;
use crate::text::{chars_of, same_text};
use vstd::prelude::*;

verus! {

/// What discovery does with a directory entry.
#[derive(Clone, Copy, Debug, PartialEq, Eq, Structural)]
pub enum Visit {
    /// Look for task files below this directory.
    Descend,
    /// This is a task file.
    Take,
    Ignore,
}

/// Directories that discovery does not enter: those whose name starts with a
/// dot, and those that hold other people's files.
pub open spec fn skips_directory(name: Seq<char>) -> bool {
    ||| name.len() > 0 && name[0] == '.'
    ||| name == "node_modules"@
    ||| name == "target"@
    ||| name == "vendor"@
}

/// What discovery does with an entry of the given name and type.
pub open spec fn visit_of(name: Seq<char>, is_dir: bool, is_file: bool) -> Visit {
    if is_dir {
        if skips_directory(name) {
            Visit::Ignore
        } else {
            Visit::Descend
        }
    } else if is_file && name == "todo.md"@ {
        Visit::Take
    } else {
        Visit::Ignore
    }
}

/// What discovery does with an entry of the given name and type.
pub fn visit_entry(name: &str, is_dir: bool, is_file: bool) -> (r: Visit)
    ensures
        r == visit_of(name@, is_dir, is_file),
{
    if is_dir {
        let chars: Vec<char> = chars_of(name);
        if chars.len() > 0 && chars[0] == '.' {
            return Visit::Ignore;
        }
        if same_text(name, "node_modules") || same_text(name, "target") || same_text(
            name,
            "vendor",
        ) {
            return Visit::Ignore;
        }
        Visit::Descend
    } else if is_file && same_text(name, "todo.md") {
        Visit::Take
    } else {
        Visit::Ignore
    }
}

/// An entry of a directory.
#[derive(Debug)]
pub struct Entry {
    pub name: String,
    pub is_dir: bool,
    pub is_file: bool,
}

#[verifier::ext_equal]
pub struct EntryView {
    pub name: Seq<char>,
    pub is_dir: bool,
    pub is_file: bool,
}

impl View for Entry {
    type V = EntryView;

    open spec fn view(&self) -> EntryView {
        EntryView { name: self.name@, is_dir: self.is_dir, is_file: self.is_file }
    }
}

pub open spec fn entry_views(v: Seq<Entry>) -> Seq<EntryView> {
    Seq::new(v.len(), |i: int| v[i]@)
}

/// The paths of those of the first `k` entries that are visited in one way.
pub open spec fn visited(
    dir: Seq<Seq<char>>,
    entries: Seq<EntryView>,
    how: Visit,
    k: nat,
) -> Seq<Seq<Seq<char>>>
    decreases k,
{
    if k == 0 {
        Seq::empty()
    } else {
        let before = visited(dir, entries, how, (k - 1) as nat);
        let e = entries[k - 1];
        if visit_of(e.name, e.is_dir, e.is_file) == how {
            before.push(dir.push(e.name))
        } else {
            before
        }
    }
}

/// A search for task files that is under way.
#[derive(Debug)]
pub struct Discovery {
    /// Directories that have not been listed yet; the last is listed next.
    pending: Vec<TreePath>,
    /// Task files found so far.
    found: Vec<TreePath>,
}

#[verifier::ext_equal]
pub struct DiscoveryView {
    pub pending: Seq<Seq<Seq<char>>>,
    pub found: Seq<Seq<Seq<char>>>,
}

pub open spec fn path_views(v: Seq<TreePath>) -> Seq<Seq<Seq<char>>> {
    Seq::new(v.len(), |i: int| v[i]@)
}

impl View for Discovery {
    type V = DiscoveryView;

    closed spec fn view(&self) -> DiscoveryView {
        DiscoveryView { pending: path_views(self.pending@), found: path_views(self.found@) }
    }
}

impl DiscoveryView {
    /// The search below a directory before it begins.
    pub open spec fn at(root: Seq<Seq<char>>) -> DiscoveryView {
        DiscoveryView { pending: seq![root], found: Seq::empty() }
    }

    /// The search after a directory was listed; `None` stands for one that may
    /// not be read, which is passed over.
    pub open spec fn listed(
        self,
        dir: Seq<Seq<char>>,
        entries: Option<Seq<EntryView>>,
    ) -> DiscoveryView {
        match entries {
            Some(es) => DiscoveryView {
                pending: self.pending + visited(dir, es, Visit::Descend, es.len()),
                found: self.found + visited(dir, es, Visit::Take, es.len()),
            },
            None => self,
        }
    }
}

impl Discovery {
    /// Begin a search below a directory.
    pub fn below(root: TreePath) -> (r: Discovery)
        ensures
            r@ == DiscoveryView::at(root@),
    {
        let mut pending: Vec<TreePath> = Vec::new();
        pending.push(root);
        let r = Discovery { pending, found: Vec::new() };
        proof {
            assert(r@ =~= DiscoveryView::at(root@));
        }
        r
    }

    /// The directory to list next, if there is one.
    pub fn next_dir(&mut self) -> (r: Option<TreePath>)
        ensures
            match r {
                Some(dir) => {
                    &&& old(self)@.pending.len() > 0
                    &&& dir@ == old(self)@.pending.last()
                    &&& final(self)@ == (DiscoveryView {
                        pending: old(self)@.pending.drop_last(),
                        ..old(self)@
                    })
                },
                None => old(self)@.pending.len() == 0 && final(self)@ == old(self)@,
            },
    {
        let r: Option<TreePath> = self.pending.pop();
        proof {
            if r is Some {
                assert(self@ =~= (DiscoveryView {
                    pending: old(self)@.pending.drop_last(),
                    ..old(self)@
                }));
            }
        }
        r
    }

    /// Take over what listing a directory gave; `None` for one that may not be
    /// read.
    pub fn take_listing(&mut self, dir: &TreePath, entries: &Option<Vec<Entry>>)
        ensures
            final(self)@ == old(self)@.listed(
                dir@,
                match *entries {
                    Some(es) => Some(entry_views(es@)),
                    None => None,
                },
            ),
    {
        if let Some(es) = entries {
            let ghost views = entry_views(es@);
            let ghost before = self@;
            let mut i: usize = 0;
            proof {
                assert(before.pending + Seq::<Seq<Seq<char>>>::empty() =~= before.pending);
                assert(before.found + Seq::<Seq<Seq<char>>>::empty() =~= before.found);
            }
            while i < es.len()
                invariant
                    views == entry_views(es@),
                    i <= es.len(),
                    self@.pending == before.pending + visited(
                        dir@,
                        views,
                        Visit::Descend,
                        i as nat,
                    ),
                    self@.found == before.found + visited(dir@, views, Visit::Take, i as nat),
                decreases es.len() - i,
            {
                let e: &Entry = &es[i];
                let ghost mid = self@;
                match visit_entry(e.name.as_str(), e.is_dir, e.is_file) {
                    Visit::Descend => {
                        self.pending.push(dir.join(e.name.as_str()));
                        proof {
                            assert(self@.pending =~= mid.pending.push(dir@.push(e.name@)));
                        }
                    },
                    Visit::Take => {
                        self.found.push(dir.join(e.name.as_str()));
                        proof {
                            assert(self@.found =~= mid.found.push(dir@.push(e.name@)));
                        }
                    },
                    Visit::Ignore => {},
                }
                proof {
                    assert(self@.pending =~= before.pending + visited(
                        dir@,
                        views,
                        Visit::Descend,
                        (i + 1) as nat,
                    ));
                    assert(self@.found =~= before.found + visited(
                        dir@,
                        views,
                        Visit::Take,
                        (i + 1) as nat,
                    ));
                }
                i += 1;
            }
        }
    }

    /// The task files that were found.
    pub fn found(self) -> (r: Vec<TreePath>)
        ensures
            path_views(r@) == self@.found,
    {
        self.found
    }
}

// ---- what a search finds ----

/// The search goes on by one directory of a disk; `disk` gives the entries of
/// each directory, `None` where it may not be read.
pub open spec fn advanced(
    s: DiscoveryView,
    disk: spec_fn(Seq<Seq<char>>) -> Option<Seq<EntryView>>,
) -> DiscoveryView {
    if s.pending.len() == 0 {
        s
    } else {
        let dir = s.pending.last();
        DiscoveryView { pending: s.pending.drop_last(), ..s }.listed(dir, disk(dir))
    }
}

/// The search goes on by `n` directories.
pub open spec fn searched(
    s: DiscoveryView,
    disk: spec_fn(Seq<Seq<char>>) -> Option<Seq<EntryView>>,
    n: nat,
) -> DiscoveryView
    decreases n,
{
    if n == 0 {
        s
    } else {
        advanced(searched(s, disk, (n - 1) as nat), disk)
    }
}

/// `disk` has, in the directory `dir`, an entry that leads to `p` and is
/// visited in the given way.
pub open spec fn leads_to(
    disk: spec_fn(Seq<Seq<char>>) -> Option<Seq<EntryView>>,
    dir: Seq<Seq<char>>,
    how: Visit,
    p: Seq<Seq<char>>,
) -> bool {
    disk(dir) matches Some(es) && exists|k: int|
        0 <= k < es.len() && visit_of((#[trigger] es[k]).name, es[k].is_dir, es[k].is_file) == how
            && p == dir.push(es[k].name)
}

/// `way` goes from `root` down, each directory an entry of the one before it
/// that is entered.
pub open spec fn is_way(
    disk: spec_fn(Seq<Seq<char>>) -> Option<Seq<EntryView>>,
    root: Seq<Seq<char>>,
    way: Seq<Seq<Seq<char>>>,
) -> bool {
    &&& way.len() > 0
    &&& way[0] == root
    &&& forall|i: int|
        0 < i < way.len() ==> leads_to(disk, way[i - 1], Visit::Descend, #[trigger] way[i])
}

/// A task file that can be reached from `root` without entering a directory
/// that is skipped or may not be read.
pub open spec fn is_task_file(
    disk: spec_fn(Seq<Seq<char>>) -> Option<Seq<EntryView>>,
    root: Seq<Seq<char>>,
    p: Seq<Seq<char>>,
) -> bool {
    exists|way: Seq<Seq<Seq<char>>>| #[trigger]
        is_way(disk, root, way) && leads_to(disk, way.last(), Visit::Take, p)
}

proof fn lemma_visited(
    dir: Seq<Seq<char>>,
    entries: Seq<EntryView>,
    how: Visit,
    k: nat,
    p: Seq<Seq<char>>,
)
    requires
        k <= entries.len(),
    ensures
        visited(dir, entries, how, k).contains(p) <==> exists|i: int|
            0 <= i < k && visit_of(
                (#[trigger] entries[i]).name,
                entries[i].is_dir,
                entries[i].is_file,
            ) == how && p == dir.push(entries[i].name),
    decreases k,
{
    if k > 0 {
        lemma_visited(dir, entries, how, (k - 1) as nat, p);
        let before = visited(dir, entries, how, (k - 1) as nat);
        let all = visited(dir, entries, how, k);
        let e = entries[k - 1];
        if all.contains(p) {
            let q = choose|q: int| 0 <= q < all.len() && all[q] == p;
            if q < before.len() {
                assert(before[q] == p);
                assert(before.contains(p));
            }
        }
        if before.contains(p) {
            let q = choose|q: int| 0 <= q < before.len() && before[q] == p;
            assert(all[q] == p);
        }
        if visit_of(e.name, e.is_dir, e.is_file) == how && p == dir.push(e.name) {
            assert(all[before.len() as int] == p);
        }
    }
}

proof fn lemma_sum_contains(a: Seq<Seq<Seq<char>>>, b: Seq<Seq<Seq<char>>>, p: Seq<Seq<char>>)
    ensures
        (a + b).contains(p) <==> a.contains(p) || b.contains(p),
{
    if (a + b).contains(p) {
        let q = choose|q: int| 0 <= q < (a + b).len() && (a + b)[q] == p;
        if q < a.len() {
            assert(a[q] == p);
        } else {
            assert(b[q - a.len()] == p);
        }
    }
    if a.contains(p) {
        let q = choose|q: int| 0 <= q < a.len() && a[q] == p;
        assert((a + b)[q] == p);
    }
    if b.contains(p) {
        let q = choose|q: int| 0 <= q < b.len() && b[q] == p;
        assert((a + b)[a.len() + q] == p);
    }
}

/// What one more directory adds to a search.
proof fn lemma_advanced(
    s: DiscoveryView,
    disk: spec_fn(Seq<Seq<char>>) -> Option<Seq<EntryView>>,
    p: Seq<Seq<char>>,
)
    requires
        s.pending.len() > 0,
    ensures
        advanced(s, disk).pending.contains(p) <==> s.pending.drop_last().contains(p) || leads_to(
            disk,
            s.pending.last(),
            Visit::Descend,
            p,
        ),
        advanced(s, disk).found.contains(p) <==> s.found.contains(p) || leads_to(
            disk,
            s.pending.last(),
            Visit::Take,
            p,
        ),
{
    let dir = s.pending.last();
    if let Some(es) = disk(dir) {
        lemma_visited(dir, es, Visit::Descend, es.len(), p);
        lemma_visited(dir, es, Visit::Take, es.len(), p);
        lemma_sum_contains(
            s.pending.drop_last(),
            visited(dir, es, Visit::Descend, es.len()),
            p,
        );
        lemma_sum_contains(s.found, visited(dir, es, Visit::Take, es.len()), p);
    }
}

proof fn lemma_pending_is_reached(
    root: Seq<Seq<char>>,
    disk: spec_fn(Seq<Seq<char>>) -> Option<Seq<EntryView>>,
    n: nat,
    p: Seq<Seq<char>>,
)
    requires
        searched(DiscoveryView::at(root), disk, n).pending.contains(p),
    ensures
        exists|way: Seq<Seq<Seq<char>>>| #[trigger] is_way(disk, root, way) && way.last() == p,
    decreases n,
{
    if n == 0 {
        let way = seq![root];
        assert(is_way(disk, root, way));
        assert(way.last() == p);
    } else {
        let s = searched(DiscoveryView::at(root), disk, (n - 1) as nat);
        if s.pending.len() == 0 {
            lemma_pending_is_reached(root, disk, (n - 1) as nat, p);
        } else {
            lemma_advanced(s, disk, p);
            if s.pending.drop_last().contains(p) {
                let q = choose|q: int|
                    0 <= q < s.pending.drop_last().len() && s.pending.drop_last()[q] == p;
                assert(s.pending[q] == p);
                lemma_pending_is_reached(root, disk, (n - 1) as nat, p);
            } else {
                let dir = s.pending.last();
                assert(s.pending[s.pending.len() - 1] == dir);
                lemma_pending_is_reached(root, disk, (n - 1) as nat, dir);
                let way = choose|way: Seq<Seq<Seq<char>>>| #[trigger]
                    is_way(disk, root, way) && way.last() == dir;
                let longer = way.push(p);
                assert forall|i: int| 0 < i < longer.len() implies leads_to(
                    disk,
                    longer[i - 1],
                    Visit::Descend,
                    #[trigger] longer[i],
                ) by {
                    if i < way.len() {
                        assert(leads_to(disk, way[i - 1], Visit::Descend, way[i]));
                    }
                }
                assert(is_way(disk, root, longer));
                assert(longer.last() == p);
            }
        }
    }
}

/// Whatever a search has found is a task file that can be reached.
pub proof fn only_task_files_are_found(
    root: Seq<Seq<char>>,
    disk: spec_fn(Seq<Seq<char>>) -> Option<Seq<EntryView>>,
    n: nat,
    p: Seq<Seq<char>>,
)
    requires
        searched(DiscoveryView::at(root), disk, n).found.contains(p),
    ensures
        is_task_file(disk, root, p),
    decreases n,
{
    if n > 0 {
        let s = searched(DiscoveryView::at(root), disk, (n - 1) as nat);
        if s.pending.len() == 0 {
            only_task_files_are_found(root, disk, (n - 1) as nat, p);
        } else {
            lemma_advanced(s, disk, p);
            if s.found.contains(p) {
                only_task_files_are_found(root, disk, (n - 1) as nat, p);
            } else {
                let dir = s.pending.last();
                assert(s.pending[s.pending.len() - 1] == dir);
                lemma_pending_is_reached(root, disk, (n - 1) as nat, dir);
            }
        }
    }
}

/// A way is either still ahead of the search, or the task files at its end are
/// found.
proof fn lemma_way(
    root: Seq<Seq<char>>,
    disk: spec_fn(Seq<Seq<char>>) -> Option<Seq<EntryView>>,
    n: nat,
    way: Seq<Seq<Seq<char>>>,
    p: Seq<Seq<char>>,
)
    requires
        is_way(disk, root, way),
        leads_to(disk, way.last(), Visit::Take, p),
    ensures
        ({
            let s = searched(DiscoveryView::at(root), disk, n);
            ||| s.found.contains(p)
            ||| exists|i: int| 0 <= i < way.len() && s.pending.contains(#[trigger] way[i])
        }),
    decreases n,
{
    let now = searched(DiscoveryView::at(root), disk, n);
    if n == 0 {
        assert(now.pending[0] == way[0]);
        assert(now.pending.contains(way[0]));
    } else {
        let s = searched(DiscoveryView::at(root), disk, (n - 1) as nat);
        lemma_way(root, disk, (n - 1) as nat, way, p);
        if s.pending.len() > 0 {
            lemma_advanced(s, disk, p);
            if !s.found.contains(p) {
                let i = choose|i: int|
                    0 <= i < way.len() && s.pending.contains(#[trigger] way[i]);
                lemma_advanced(s, disk, way[i]);
                let q = choose|q: int| 0 <= q < s.pending.len() && s.pending[q] == way[i];
                if q < s.pending.len() - 1 {
                    assert(s.pending.drop_last()[q] == way[i]);
                    assert(now.pending.contains(way[i]));
                } else if i == way.len() - 1 {
                    assert(now.found.contains(p));
                } else {
                    lemma_advanced(s, disk, way[i + 1]);
                    assert(leads_to(disk, way[(i + 1) - 1], Visit::Descend, way[i + 1]));
                    assert(now.pending.contains(way[i + 1]));
                }
            }
        }
    }
}

/// A search that has no directory left has found every task file that can be
/// reached.
pub proof fn every_task_file_is_found(
    root: Seq<Seq<char>>,
    disk: spec_fn(Seq<Seq<char>>) -> Option<Seq<EntryView>>,
    n: nat,
    p: Seq<Seq<char>>,
)
    requires
        searched(DiscoveryView::at(root), disk, n).pending.len() == 0,
        is_task_file(disk, root, p),
    ensures
        searched(DiscoveryView::at(root), disk, n).found.contains(p),
{
    let way = choose|way: Seq<Seq<Seq<char>>>| #[trigger]
        is_way(disk, root, way) && leads_to(disk, way.last(), Visit::Take, p);
    lemma_way(root, disk, n, way, p);
}

/// No directory has two entries of the same name.
pub open spec fn names_differ(disk: spec_fn(Seq<Seq<char>>) -> Option<Seq<EntryView>>) -> bool {
    forall|dir: Seq<Seq<char>>, i: int, j: int|
        (disk(dir) matches Some(es) && 0 <= i < j < es.len()) ==> (#[trigger] (disk(
            dir,
        )->0)[i]).name != (#[trigger] (disk(dir)->0)[j]).name
}

/// The directories that a search has listed, or passed over, after `n` steps.
spec fn behind(
    root: Seq<Seq<char>>,
    disk: spec_fn(Seq<Seq<char>>) -> Option<Seq<EntryView>>,
    n: nat,
) -> Set<Seq<Seq<char>>>
    decreases n,
{
    if n == 0 {
        Set::empty()
    } else {
        let s = searched(DiscoveryView::at(root), disk, (n - 1) as nat);
        if s.pending.len() == 0 {
            behind(root, disk, (n - 1) as nat)
        } else {
            behind(root, disk, (n - 1) as nat).insert(s.pending.last())
        }
    }
}

/// The path is that of an entry of a directory that the search has behind it.
spec fn is_entry_behind(p: Seq<Seq<char>>, done: Set<Seq<Seq<char>>>) -> bool {
    p.len() > 0 && done.contains(p.drop_last())
}

/// A search that has met no path twice.
spec fn is_clean(
    root: Seq<Seq<char>>,
    s: DiscoveryView,
    done: Set<Seq<Seq<char>>>,
) -> bool {
    &&& s.pending.no_duplicates()
    &&& s.found.no_duplicates()
    &&& forall|p: Seq<Seq<char>>| #[trigger]
        s.pending.contains(p) ==> p.len() >= root.len() && !done.contains(p) && (p == root
            || is_entry_behind(p, done))
    &&& forall|p: Seq<Seq<char>>| #[trigger]
        done.contains(p) ==> p.len() >= root.len() && (p == root || is_entry_behind(p, done))
    &&& forall|p: Seq<Seq<char>>| #[trigger] s.found.contains(p) ==> is_entry_behind(p, done)
}

proof fn lemma_visited_once(
    dir: Seq<Seq<char>>,
    entries: Seq<EntryView>,
    how: Visit,
    k: nat,
)
    requires
        k <= entries.len(),
        forall|i: int, j: int|
            0 <= i < j < entries.len() ==> (#[trigger] entries[i]).name != (
            #[trigger] entries[j]).name,
    ensures
        visited(dir, entries, how, k).no_duplicates(),
    decreases k,
{
    if k > 0 {
        lemma_visited_once(dir, entries, how, (k - 1) as nat);
        let before = visited(dir, entries, how, (k - 1) as nat);
        let p = dir.push(entries[k - 1].name);
        lemma_visited(dir, entries, how, (k - 1) as nat, p);
        if before.contains(p) {
            let i = choose|i: int|
                0 <= i < k - 1 && visit_of(
                    (#[trigger] entries[i]).name,
                    entries[i].is_dir,
                    entries[i].is_file,
                ) == how && p == dir.push(entries[i].name);
            assert(p.last() == entries[i].name);
            assert(p.last() == entries[k - 1].name);
        }
        lemma_one_more(before, p);
    }
}

proof fn lemma_one_more(s: Seq<Seq<Seq<char>>>, p: Seq<Seq<char>>)
    requires
        s.no_duplicates(),
        !s.contains(p),
    ensures
        s.push(p).no_duplicates(),
{
    let t = s.push(p);
    assert forall|i: int, j: int| 0 <= i < t.len() && 0 <= j < t.len() && i != j implies t[i]
        != t[j] by {
        if i == s.len() {
            assert(s[j] == t[j]);
            assert(s.contains(s[j]));
        } else if j == s.len() {
            assert(s[i] == t[i]);
            assert(s.contains(s[i]));
        }
    }
}

proof fn lemma_sum_once(a: Seq<Seq<Seq<char>>>, b: Seq<Seq<Seq<char>>>)
    requires
        a.no_duplicates(),
        b.no_duplicates(),
        forall|p: Seq<Seq<char>>| #[trigger] b.contains(p) ==> !a.contains(p),
    ensures
        (a + b).no_duplicates(),
{
    let t = a + b;
    assert forall|i: int, j: int| 0 <= i < t.len() && 0 <= j < t.len() && i != j implies t[i]
        != t[j] by {
        if i < a.len() && j >= a.len() {
            assert(b.contains(b[j - a.len()]));
            assert(a.contains(a[i]));
        } else if j < a.len() && i >= a.len() {
            assert(b.contains(b[i - a.len()]));
            assert(a.contains(a[j]));
        }
    }
}

proof fn lemma_stays_clean(
    root: Seq<Seq<char>>,
    disk: spec_fn(Seq<Seq<char>>) -> Option<Seq<EntryView>>,
    s: DiscoveryView,
    done: Set<Seq<Seq<char>>>,
)
    requires
        names_differ(disk),
        is_clean(root, s, done),
        s.pending.len() > 0,
    ensures
        is_clean(root, advanced(s, disk), done.insert(s.pending.last())),
{
    let dir = s.pending.last();
    let rest = s.pending.drop_last();
    let now = done.insert(dir);
    let next = advanced(s, disk);
    assert(s.pending[s.pending.len() - 1] == dir);
    assert(s.pending.contains(dir));
    assert forall|p: Seq<Seq<char>>| #[trigger] rest.contains(p) implies s.pending.contains(p) && p
        != dir by {
        let q = choose|q: int| 0 <= q < rest.len() && rest[q] == p;
        assert(s.pending[q] == p);
        assert(s.pending[q] != s.pending[s.pending.len() - 1]);
    }
    assert forall|i: int, j: int|
        0 <= i < rest.len() && 0 <= j < rest.len() && i != j implies rest[i] != rest[j] by {
        assert(s.pending[i] != s.pending[j]);
    }
    assert forall|p: Seq<Seq<char>>| is_entry_behind(p, done) implies is_entry_behind(p, now) by {}
    if let Some(es) = disk(dir) {
        let dirs = visited(dir, es, Visit::Descend, es.len());
        let files = visited(dir, es, Visit::Take, es.len());
        assert forall|i: int, j: int| 0 <= i < j < es.len() implies (#[trigger] es[i]).name != (
        #[trigger] es[j]).name by {
            assert((disk(dir)->0)[i].name != (disk(dir)->0)[j].name);
        }
        lemma_visited_once(dir, es, Visit::Descend, es.len());
        lemma_visited_once(dir, es, Visit::Take, es.len());
        assert forall|p: Seq<Seq<char>>| #[trigger] dirs.contains(p) implies p.len() > dir.len()
            && p.drop_last() == dir by {
            lemma_visited(dir, es, Visit::Descend, es.len(), p);
            assert(p.drop_last() =~= dir);
        }
        assert forall|p: Seq<Seq<char>>| #[trigger] files.contains(p) implies p.len() > 0
            && p.drop_last() == dir by {
            lemma_visited(dir, es, Visit::Take, es.len(), p);
            assert(p.drop_last() =~= dir);
        }
        assert forall|p: Seq<Seq<char>>| #[trigger] dirs.contains(p) implies !rest.contains(p) by {
            if rest.contains(p) {
                assert(s.pending.contains(p));
            }
        }
        assert forall|p: Seq<Seq<char>>| #[trigger] files.contains(p) implies !s.found.contains(
            p,
        ) by {}
        lemma_sum_once(rest, dirs);
        lemma_sum_once(s.found, files);
    }
    assert forall|p: Seq<Seq<char>>| #[trigger] next.pending.contains(p) implies p.len()
        >= root.len() && !now.contains(p) && (p == root || is_entry_behind(p, now)) by {
        lemma_advanced(s, disk, p);
        if rest.contains(p) {
            assert(s.pending.contains(p));
        } else {
            assert(leads_to(disk, dir, Visit::Descend, p));
            assert(p.drop_last() =~= dir);
            if done.contains(p) {
                assert(p == root || is_entry_behind(p, done));
            }
        }
    }
    assert forall|p: Seq<Seq<char>>| #[trigger] next.found.contains(p) implies is_entry_behind(
        p,
        now,
    ) by {
        lemma_advanced(s, disk, p);
        if !s.found.contains(p) {
            assert(leads_to(disk, dir, Visit::Take, p));
            assert(p.drop_last() =~= dir);
        }
    }
}

proof fn lemma_clean(
    root: Seq<Seq<char>>,
    disk: spec_fn(Seq<Seq<char>>) -> Option<Seq<EntryView>>,
    n: nat,
)
    requires
        names_differ(disk),
    ensures
        is_clean(root, searched(DiscoveryView::at(root), disk, n), behind(root, disk, n)),
    decreases n,
{
    if n > 0 {
        lemma_clean(root, disk, (n - 1) as nat);
        let s = searched(DiscoveryView::at(root), disk, (n - 1) as nat);
        if s.pending.len() > 0 {
            lemma_stays_clean(root, disk, s, behind(root, disk, (n - 1) as nat));
        }
    }
}

/// Where no directory has two entries of the same name, a search finds no file
/// twice, and has no directory ahead of it twice.
pub proof fn no_file_is_found_twice(
    root: Seq<Seq<char>>,
    disk: spec_fn(Seq<Seq<char>>) -> Option<Seq<EntryView>>,
    n: nat,
)
    requires
        names_differ(disk),
    ensures
        searched(DiscoveryView::at(root), disk, n).found.no_duplicates(),
        searched(DiscoveryView::at(root), disk, n).pending.no_duplicates(),
{
    lemma_clean(root, disk, n);
}

} // verus!
