//! Picking positions out of a list.
use vstd::prelude::*;

verus! {

/// `at` names, in ascending order, exactly the positions below `n` that `keep`
/// holds of.
pub open spec fn names_exactly(at: Seq<int>, n: int, keep: spec_fn(int) -> bool) -> bool {
    &&& forall|i: int, j: int| 0 <= i < j < at.len() ==> #[trigger] at[i] < #[trigger] at[j]
    &&& forall|j: int| 0 <= j < at.len() ==> 0 <= #[trigger] at[j] < n && keep(at[j])
    &&& forall|i: int|
        0 <= i < n && #[trigger] keep(i) ==> exists|j: int| 0 <= j < at.len() && #[trigger] at[j] == i
}

/// `out` holds what `from` has at the positions `at`.
pub open spec fn holds_at<A>(out: Seq<A>, from: Seq<A>, at: Seq<int>) -> bool {
    &&& out.len() == at.len()
    &&& forall|j: int| 0 <= j < at.len() ==> #[trigger] out[j] == from[at[j]]
}

/// One position more, which is kept.
pub proof fn lemma_keep_next(at: Seq<int>, n: int, keep: spec_fn(int) -> bool)
    requires
        0 <= n,
        names_exactly(at, n, keep),
        keep(n),
    ensures
        names_exactly(at.push(n), n + 1, keep),
{
    let more = at.push(n);
    assert forall|i: int| 0 <= i < n + 1 && #[trigger] keep(i) implies exists|j: int|
        0 <= j < more.len() && #[trigger] more[j] == i by {
        if i == n {
            assert(more[at.len() as int] == i);
        } else {
            let j = choose|j: int| 0 <= j < at.len() && #[trigger] at[j] == i;
            assert(more[j] == i);
        }
    }
}

/// One position more, which is not kept.
pub proof fn lemma_skip_next(at: Seq<int>, n: int, keep: spec_fn(int) -> bool)
    requires
        0 <= n,
        names_exactly(at, n, keep),
        !keep(n),
    ensures
        names_exactly(at, n + 1, keep),
{
}

/// The positions of two lists, one after the other.
pub proof fn lemma_join(
    a: Seq<int>,
    n: int,
    b: Seq<int>,
    m: int,
    keep: spec_fn(int) -> bool,
    keep_b: spec_fn(int) -> bool,
)
    requires
        0 <= n,
        0 <= m,
        names_exactly(a, n, keep),
        names_exactly(b, m, keep_b),
        forall|i: int| 0 <= i < m ==> #[trigger] keep_b(i) == keep(n + i),
    ensures
        names_exactly(a + Seq::new(b.len(), |j: int| n + b[j]), n + m, keep),
{
    let shifted = Seq::new(b.len(), |j: int| n + b[j]);
    let all = a + shifted;
    assert forall|j: int| 0 <= j < all.len() implies 0 <= #[trigger] all[j] < n + m && keep(
        all[j],
    ) by {
        if j < a.len() {
            assert(all[j] == a[j]);
        } else {
            let k = j - a.len();
            assert(all[j] == n + b[k]);
            assert(keep_b(b[k]));
        }
    }
    assert forall|i: int, j: int| 0 <= i < j < all.len() implies #[trigger] all[i]
        < #[trigger] all[j] by {
        if j < a.len() {
            assert(a[i] < a[j]);
        } else if i < a.len() {
            assert(all[i] == a[i] && all[j] == n + b[j - a.len()]);
        } else {
            assert(b[i - a.len()] < b[j - a.len()]);
        }
    }
    assert forall|i: int| 0 <= i < n + m && #[trigger] keep(i) implies exists|j: int|
        0 <= j < all.len() && #[trigger] all[j] == i by {
        if i < n {
            let j = choose|j: int| 0 <= j < a.len() && #[trigger] a[j] == i;
            assert(all[j] == i);
        } else {
            assert(keep_b(i - n) == keep(n + (i - n)));
            assert(keep_b(i - n));
            let j = choose|j: int| 0 <= j < b.len() && #[trigger] b[j] == i - n;
            assert(all[a.len() + j] == i);
        }
    }
}

/// Two lists of positions that are named exactly are the same list.
pub proof fn lemma_same_positions(
    a: Seq<int>,
    b: Seq<int>,
    n: int,
    keep: spec_fn(int) -> bool,
)
    requires
        names_exactly(a, n, keep),
        names_exactly(b, n, keep),
    ensures
        a == b,
    decreases n,
{
    if n <= 0 {
        if a.len() > 0 {
            assert(0 <= a[0] < n);
        }
        if b.len() > 0 {
            assert(0 <= b[0] < n);
        }
        assert(a =~= b);
    } else {
        lemma_cut_last(a, n, keep);
        lemma_cut_last(b, n, keep);
        let a1 = if keep(n - 1) {
            a.drop_last()
        } else {
            a
        };
        let b1 = if keep(n - 1) {
            b.drop_last()
        } else {
            b
        };
        lemma_same_positions(a1, b1, n - 1, keep);
        if keep(n - 1) {
            assert(a =~= a1.push(n - 1));
            assert(b =~= b1.push(n - 1));
        }
    }
}

proof fn lemma_cut_last(a: Seq<int>, n: int, keep: spec_fn(int) -> bool)
    requires
        0 < n,
        names_exactly(a, n, keep),
    ensures
        keep(n - 1) ==> a.len() > 0 && a.last() == n - 1 && names_exactly(
            a.drop_last(),
            n - 1,
            keep,
        ),
        !keep(n - 1) ==> names_exactly(a, n - 1, keep),
{
    if keep(n - 1) {
        let j = choose|j: int| 0 <= j < a.len() && #[trigger] a[j] == n - 1;
        if j < a.len() - 1 {
            assert(a[j] < a[a.len() - 1]);
            assert(a[a.len() - 1] < n);
        }
        let less = a.drop_last();
        assert forall|i: int| 0 <= i < less.len() implies 0 <= #[trigger] less[i] < n - 1 && keep(
            less[i],
        ) by {
            assert(a[i] < a[a.len() - 1]);
        }
        assert forall|i: int| 0 <= i < n - 1 && #[trigger] keep(i) implies exists|k: int|
            0 <= k < less.len() && #[trigger] less[k] == i by {
            let k = choose|k: int| 0 <= k < a.len() && #[trigger] a[k] == i;
            assert(less[k] == i);
        }
    } else {
        assert forall|j: int| 0 <= j < a.len() implies 0 <= #[trigger] a[j] < n - 1 && keep(
            a[j],
        ) by {}
    }
}

/// Names under one rule are names under another that holds of the same
/// positions.
pub proof fn lemma_same_keep(
    at: Seq<int>,
    n: int,
    keep: spec_fn(int) -> bool,
    other: spec_fn(int) -> bool,
)
    requires
        names_exactly(at, n, keep),
        forall|i: int| 0 <= i < n ==> #[trigger] keep(i) == other(i),
    ensures
        names_exactly(at, n, other),
{
    assert forall|j: int| 0 <= j < at.len() implies 0 <= #[trigger] at[j] < n && other(at[j]) by {
        assert(keep(at[j]));
    }
    assert forall|i: int| 0 <= i < n && #[trigger] other(i) implies exists|j: int|
        0 <= j < at.len() && #[trigger] at[j] == i by {
        assert(keep(i));
    }
}

proof fn lemma_name_at_least(at: Seq<int>, n: int, keep: spec_fn(int) -> bool, j: int)
    requires
        names_exactly(at, n, keep),
        0 <= j < at.len(),
    ensures
        j <= at[j],
    decreases j,
{
    if j > 0 {
        lemma_name_at_least(at, n, keep, j - 1);
        assert(at[j - 1] < at[j]);
    }
}

/// There are no more names than positions.
pub proof fn lemma_count(at: Seq<int>, n: int, keep: spec_fn(int) -> bool)
    requires
        names_exactly(at, n, keep),
        0 <= n,
    ensures
        at.len() <= n,
{
    if at.len() > 0 {
        lemma_name_at_least(at, n, keep, at.len() - 1);
        assert(at[at.len() - 1] < n);
    }
}

proof fn lemma_name_at_most(at: Seq<int>, n: int, keep: spec_fn(int) -> bool, j: int)
    requires
        names_exactly(at, n, keep),
        0 <= j < at.len(),
    ensures
        at[j] <= n - at.len() + j,
    decreases at.len() - j,
{
    if j < at.len() - 1 {
        lemma_name_at_most(at, n, keep, j + 1);
        assert(at[j] < at[j + 1]);
    }
}

/// As many names as positions: each position is named by its own index.
pub proof fn lemma_every_name(at: Seq<int>, n: int, keep: spec_fn(int) -> bool)
    requires
        names_exactly(at, n, keep),
        at.len() == n,
    ensures
        forall|j: int| 0 <= j < n ==> #[trigger] at[j] == j,
{
    assert forall|j: int| 0 <= j < n implies #[trigger] at[j] == j by {
        lemma_name_at_least(at, n, keep, j);
        lemma_name_at_most(at, n, keep, j);
    }
}

} // verus!
