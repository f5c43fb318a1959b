//! Paths as lists of components.
use crate::order::Ordered;
use crate::text;
use crate::text::{same_text, text_not_after};
use vstd::prelude::*;

verus! {

/// A file or directory path, one string per component. An absolute path has
/// the root directory as its first component.
#[derive(Debug)]
pub struct TreePath {
    pub parts: Vec<String>,
}

/// The texts of a list of strings.
pub open spec fn texts(v: Seq<String>) -> Seq<Seq<char>> {
    Seq::new(v.len(), |i: int| v[i]@)
}

impl View for TreePath {
    type V = Seq<Seq<char>>;

    open spec fn view(&self) -> Seq<Seq<char>> {
        texts(self.parts@)
    }
}

/// The directory that holds `p`; `None` for the empty path.
pub open spec fn parent_of(p: Seq<Seq<char>>) -> Option<Seq<Seq<char>>> {
    if p.len() == 0 {
        None
    } else {
        Some(p.drop_last())
    }
}

/// `p` below `base`; `p` itself when it does not lie there.
pub open spec fn relative_to(p: Seq<Seq<char>>, base: Seq<Seq<char>>) -> Seq<Seq<char>> {
    if base.is_prefix_of(p) {
        p.skip(base.len() as int)
    } else {
        p
    }
}

/// Order by the first component that differs; a path goes before what lies
/// below it.
pub open spec fn path_le(a: Seq<Seq<char>>, b: Seq<Seq<char>>) -> bool
    decreases a.len(),
{
    if a.len() == 0 {
        true
    } else if b.len() == 0 {
        false
    } else if a[0] != b[0] {
        text::text_le(a[0], b[0])
    } else {
        path_le(a.drop_first(), b.drop_first())
    }
}

proof fn lemma_path_le_total(a: Seq<Seq<char>>, b: Seq<Seq<char>>)
    ensures
        path_le(a, b) || path_le(b, a),
    decreases a.len(),
{
    if a.len() > 0 && b.len() > 0 {
        text::lemma_text_le_total(a[0], b[0]);
        lemma_path_le_total(a.drop_first(), b.drop_first());
    }
}

proof fn lemma_path_le_transitive(a: Seq<Seq<char>>, b: Seq<Seq<char>>, c: Seq<Seq<char>>)
    requires
        path_le(a, b),
        path_le(b, c),
    ensures
        path_le(a, c),
    decreases a.len(),
{
    if a.len() > 0 {
        if a[0] == b[0] && b[0] == c[0] {
            lemma_path_le_transitive(a.drop_first(), b.drop_first(), c.drop_first());
        } else if a[0] != b[0] && b[0] != c[0] {
            text::lemma_text_le_transitive(a[0], b[0], c[0]);
            text::lemma_text_le_total(a[0], b[0]);
        }
    }
}

impl Ordered for TreePath {
    open spec fn at_most(self, other: Self) -> bool {
        path_le(self@, other@)
    }

    proof fn total(a: Self, b: Self) {
        lemma_path_le_total(a@, b@);
    }

    proof fn transitive(a: Self, b: Self, c: Self) {
        lemma_path_le_transitive(a@, b@, c@);
    }

    fn not_after(&self, other: &Self) -> (r: bool) {
        let mut i: usize = 0;
        proof {
            assert(self@.skip(0) =~= self@);
            assert(other@.skip(0) =~= other@);
        }
        while i < self.parts.len() && i < other.parts.len()
            invariant
                i <= self.parts.len(),
                i <= other.parts.len(),
                path_le(self@, other@) == path_le(self@.skip(i as int), other@.skip(i as int)),
            decreases self.parts.len() - i,
        {
            proof {
                assert(self@.skip(i as int)[0] == self.parts@[i as int]@);
                assert(other@.skip(i as int)[0] == other.parts@[i as int]@);
            }
            if !same_text(self.parts[i].as_str(), other.parts[i].as_str()) {
                return text_not_after(self.parts[i].as_str(), other.parts[i].as_str());
            }
            proof {
                assert(self@.skip(i as int).drop_first() =~= self@.skip(i + 1));
                assert(other@.skip(i as int).drop_first() =~= other@.skip(i + 1));
            }
            i += 1;
        }
        i == self.parts.len()
    }
}

impl Clone for TreePath {
    fn clone(&self) -> (r: Self)
        ensures
            r@ == self@,
    {
        self.prefix(self.parts.len())
    }
}

impl TreePath {
    /// The path with no components.
    pub fn new() -> (r: Self)
        ensures
            r@ == Seq::<Seq<char>>::empty(),
    {
        let r = TreePath { parts: Vec::new() };
        proof {
            assert(r@ =~= Seq::<Seq<char>>::empty());
        }
        r
    }

    /// The first `n` components.
    pub fn prefix(&self, n: usize) -> (r: Self)
        requires
            n <= self@.len(),
        ensures
            r@ == self@.take(n as int),
    {
        let mut parts: Vec<String> = Vec::new();
        let mut i: usize = 0;
        while i < n
            invariant
                i <= n <= self.parts.len(),
                parts@ == self.parts@.take(i as int),
            decreases n - i,
        {
            parts.push(self.parts[i].clone());
            proof {
                assert(self.parts@.take(i + 1) =~= self.parts@.take(i as int).push(
                    self.parts@[i as int],
                ));
            }
            i += 1;
        }
        let r = TreePath { parts };
        proof {
            assert(r@ =~= self@.take(n as int));
        }
        r
    }

    /// The components after the first `n`.
    pub fn suffix(&self, n: usize) -> (r: Self)
        requires
            n <= self@.len(),
        ensures
            r@ == self@.skip(n as int),
    {
        let mut parts: Vec<String> = Vec::new();
        let mut i: usize = n;
        while i < self.parts.len()
            invariant
                n <= i <= self.parts.len(),
                parts@ == self.parts@.subrange(n as int, i as int),
            decreases self.parts.len() - i,
        {
            parts.push(self.parts[i].clone());
            proof {
                assert(self.parts@.subrange(n as int, i + 1) =~= self.parts@.subrange(
                    n as int,
                    i as int,
                ).push(self.parts@[i as int]));
            }
            i += 1;
        }
        let r = TreePath { parts };
        proof {
            assert(r@ =~= self@.skip(n as int));
        }
        r
    }

    /// This path with one more component.
    pub fn join(&self, name: &str) -> (r: Self)
        ensures
            r@ == self@.push(name@),
    {
        let mut r: TreePath = self.clone();
        let ghost before = r@;
        r.parts.push(name.to_owned());
        proof {
            assert(r@ =~= before.push(name@));
        }
        r
    }

    /// The directory that holds this path.
    pub fn parent(&self) -> (r: Option<TreePath>)
        ensures
            match r {
                Some(p) => parent_of(self@) == Some(p@),
                None => parent_of(self@) is None,
            },
    {
        if self.parts.len() == 0 {
            None
        } else {
            proof {
                assert(self@.drop_last() =~= self@.take(self@.len() - 1));
            }
            Some(self.prefix(self.parts.len() - 1))
        }
    }

    /// Whether `base` is this path or one above it.
    pub fn starts_with(&self, base: &TreePath) -> (r: bool)
        ensures
            r == base@.is_prefix_of(self@),
    {
        if base.parts.len() > self.parts.len() {
            return false;
        }
        let mut i: usize = 0;
        while i < base.parts.len()
            invariant
                i <= base.parts.len() <= self.parts.len(),
                forall|k: int| 0 <= k < i ==> base@[k] == self@[k],
            decreases base.parts.len() - i,
        {
            if !same_text(base.parts[i].as_str(), self.parts[i].as_str()) {
                proof {
                    assert(base@[i as int] != self@[i as int]);
                    if base@.is_prefix_of(self@) {
                        assert(self@.subrange(0, base@.len() as int)[i as int] == base@[i as int]);
                    }
                }
                return false;
            }
            i += 1;
        }
        proof {
            assert(base@ =~= self@.subrange(0, base@.len() as int));
        }
        true
    }

    /// Whether both paths have the same components.
    pub fn same(&self, other: &TreePath) -> (r: bool)
        ensures
            r == (self@ == other@),
    {
        if self.parts.len() != other.parts.len() {
            return false;
        }
        let r: bool = self.starts_with(other);
        proof {
            assert(self@.subrange(0, self@.len() as int) =~= self@);
        }
        r
    }

    /// This path below `base`; this path itself when it does not lie there.
    pub fn below(&self, base: &TreePath) -> (r: TreePath)
        ensures
            r@ == relative_to(self@, base@),
    {
        if self.starts_with(base) {
            self.suffix(base.parts.len())
        } else {
            self.clone()
        }
    }

    /// Whether the path has no components.
    pub fn is_empty(&self) -> (r: bool)
        ensures
            r == (self@.len() == 0),
    {
        self.parts.is_empty()
    }
}

/// A path put back under the directory it was taken relative to is the same
/// path.
pub proof fn relative_path_rejoins(base: Seq<Seq<char>>, below: Seq<Seq<char>>)
    ensures
        relative_to(base + below, base) == below,
{
    assert(base =~= (base + below).subrange(0, base.len() as int));
    assert((base + below).skip(base.len() as int) =~= below);
}

/// The paths agree before `i`, and at `i` each has a component of its own.
pub open spec fn parts_first_at(a: Seq<Seq<char>>, b: Seq<Seq<char>>, i: int) -> bool {
    &&& 0 <= i < a.len()
    &&& i < b.len()
    &&& a[i] != b[i]
    &&& forall|k: int| 0 <= k < i ==> #[trigger] a[k] == b[k]
}

/// Two paths go in the order of the components at which they part; a path goes
/// before what lies below it.
pub proof fn paths_go_by_where_they_part(a: Seq<Seq<char>>, b: Seq<Seq<char>>)
    ensures
        forall|i: int| #[trigger]
            parts_first_at(a, b, i) ==> (path_le(a, b) <==> text::text_le(a[i], b[i])),
        (forall|i: int| !#[trigger] parts_first_at(a, b, i)) ==> (path_le(a, b) <==> a.len()
            <= b.len()),
    decreases a.len(),
{
    if a.len() > 0 && b.len() > 0 {
        if a[0] != b[0] {
            assert(parts_first_at(a, b, 0));
            assert forall|i: int| #[trigger] parts_first_at(a, b, i) implies (path_le(a, b)
                <==> text::text_le(a[i], b[i])) by {
                if i > 0 {
                    assert(a[0] == b[0]);
                }
            }
        } else {
            let x = a.drop_first();
            let y = b.drop_first();
            paths_go_by_where_they_part(x, y);
            assert forall|i: int| #[trigger] parts_first_at(a, b, i) implies (path_le(a, b)
                <==> text::text_le(a[i], b[i])) by {
                assert forall|k: int| 0 <= k < i - 1 implies #[trigger] x[k] == y[k] by {
                    assert(a[k + 1] == b[k + 1]);
                }
                assert(parts_first_at(x, y, i - 1));
            }
            if forall|i: int| !#[trigger] parts_first_at(a, b, i) {
                assert forall|i: int| !#[trigger] parts_first_at(x, y, i) by {
                    if parts_first_at(x, y, i) {
                        assert forall|k: int| 0 <= k < i + 1 implies #[trigger] a[k] == b[k] by {
                            if k > 0 {
                                assert(x[k - 1] == y[k - 1]);
                            }
                        }
                        assert(parts_first_at(a, b, i + 1));
                    }
                }
            }
        }
    }
}

/// The directory that holds an entry is the path without its last component,
/// and a path that does not lie below a directory is left as it is.
pub proof fn directories_hold_their_entries(
    dir: Seq<Seq<char>>,
    name: Seq<char>,
    base: Seq<Seq<char>>,
)
    ensures
        parent_of(dir.push(name)) == Some(dir),
        parent_of(Seq::empty()) is None,
        (dir.len() < base.len() || dir.take(base.len() as int) != base) ==> relative_to(dir, base)
            == dir,
        relative_to(base + dir, base) == dir,
{
    assert(dir.push(name).drop_last() =~= dir);
    relative_path_rejoins(base, dir);
    if base.is_prefix_of(dir) {
        assert(dir.take(base.len() as int) =~= base);
    }
}

} // verus!
