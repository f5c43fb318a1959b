//! Ordered keys and stable listings of indices.
use vstd::prelude::*;

verus! {

/// A key type with a total preorder.
pub trait Ordered: Sized {
    spec fn at_most(self, other: Self) -> bool;

    proof fn total(a: Self, b: Self)
        ensures
            a.at_most(b) || b.at_most(a),
    ;

    proof fn transitive(a: Self, b: Self, c: Self)
        requires
            a.at_most(b),
            b.at_most(c),
        ensures
            a.at_most(c),
    ;

    fn not_after(&self, other: &Self) -> (r: bool)
        ensures
            r == self.at_most(*other),
    ;
}

impl Ordered for u64 {
    open spec fn at_most(self, other: Self) -> bool {
        self <= other
    }

    proof fn total(a: Self, b: Self) {
    }

    proof fn transitive(a: Self, b: Self, c: Self) {
    }

    fn not_after(&self, other: &Self) -> (r: bool) {
        *self <= *other
    }
}

/// Pairs are ordered by their first part, then by their second.
impl Ordered for (usize, usize) {
    open spec fn at_most(self, other: Self) -> bool {
        self.0 < other.0 || (self.0 == other.0 && self.1 <= other.1)
    }

    proof fn total(a: Self, b: Self) {
    }

    proof fn transitive(a: Self, b: Self, c: Self) {
    }

    fn not_after(&self, other: &Self) -> (r: bool) {
        self.0 < other.0 || (self.0 == other.0 && self.1 <= other.1)
    }
}

/// Index `a` goes before index `b`: its key is smaller, or the keys are
/// equivalent and `a` is the smaller index.
pub open spec fn ahead<K: Ordered>(keys: Seq<K>, a: int, b: int) -> bool {
    keys[a].at_most(keys[b]) && (keys[b].at_most(keys[a]) ==> a < b)
}

/// `out` lists exactly the indices that `keep` marks, by key and, among
/// equivalent keys, in ascending order.
pub open spec fn is_listing<K: Ordered>(out: Seq<usize>, keep: Seq<bool>, keys: Seq<K>) -> bool {
    &&& forall|p: int|
        0 <= p < out.len() ==> (#[trigger] out[p]) < keep.len() && keep[out[p] as int]
    &&& forall|i: int|
        0 <= i < keep.len() && #[trigger] keep[i] ==> exists|p: int|
            0 <= p < out.len() && out[p] == i
    &&& forall|p: int, q: int|
        0 <= p < q < out.len() ==> ahead(keys, #[trigger] out[p] as int, #[trigger] out[q] as int)
}

/// Index `a` goes before index `b` by `le`; of two that `le` does not tell
/// apart, the smaller goes first.
pub open spec fn before(le: spec_fn(int, int) -> bool, a: int, b: int) -> bool {
    le(a, b) && (le(b, a) ==> a < b)
}

/// `out` lists exactly the indices that `keep` marks, in the order of `le`.
pub open spec fn is_arranged(
    out: Seq<usize>,
    keep: Seq<bool>,
    le: spec_fn(int, int) -> bool,
) -> bool {
    &&& forall|p: int|
        0 <= p < out.len() ==> (#[trigger] out[p]) < keep.len() && keep[out[p] as int]
    &&& forall|i: int|
        0 <= i < keep.len() && #[trigger] keep[i] ==> exists|p: int|
            0 <= p < out.len() && out[p] == i
    &&& forall|p: int, q: int|
        0 <= p < q < out.len() ==> before(le, #[trigger] out[p] as int, #[trigger] out[q] as int)
}

/// `le` compares any two indices below `n`, and chains.
pub open spec fn is_preorder(le: spec_fn(int, int) -> bool, n: int) -> bool {
    &&& forall|a: int, b: int| 0 <= a < n && 0 <= b < n ==> #[trigger] le(a, b) || le(b, a)
    &&& forall|a: int, b: int, c: int|
        0 <= a < n && 0 <= b < n && 0 <= c < n && #[trigger] le(a, b) && #[trigger] le(b, c)
            ==> le(a, c)
}

/// The order of keys, as an order of their indices.
pub open spec fn by_key<K: Ordered>(keys: Seq<K>) -> spec_fn(int, int) -> bool {
    |a: int, b: int| keys[a].at_most(keys[b])
}

proof fn lemma_by_key<K: Ordered>(out: Seq<usize>, keep: Seq<bool>, keys: Seq<K>)
    ensures
        is_listing(out, keep, keys) == is_arranged(out, keep, by_key(keys)),
        forall|n: int| #[trigger] is_preorder(by_key(keys), n),
{
    assert forall|a: int, b: int| #[trigger] ahead(keys, a, b) == before(by_key(keys), a, b) by {}
    if is_listing(out, keep, keys) {
        assert forall|p: int, q: int| 0 <= p < q < out.len() implies before(
            by_key(keys),
            #[trigger] out[p] as int,
            #[trigger] out[q] as int,
        ) by {
            assert(ahead(keys, out[p] as int, out[q] as int));
        }
    }
    if is_arranged(out, keep, by_key(keys)) {
        assert forall|p: int, q: int| 0 <= p < q < out.len() implies ahead(
            keys,
            #[trigger] out[p] as int,
            #[trigger] out[q] as int,
        ) by {
            assert(before(by_key(keys), out[p] as int, out[q] as int));
        }
    }
    assert forall|n: int| #[trigger] is_preorder(by_key(keys), n) by {
        let le = by_key(keys);
        assert forall|a: int, b: int| 0 <= a < n && 0 <= b < n implies #[trigger] le(a, b) || le(
            b,
            a,
        ) by {
            K::total(keys[a], keys[b]);
        }
        assert forall|a: int, b: int, c: int|
            0 <= a < n && 0 <= b < n && 0 <= c < n && #[trigger] le(a, b) && #[trigger] le(
                b,
                c,
            ) implies le(a, c) by {
            K::transitive(keys[a], keys[b], keys[c]);
        }
    }
}

proof fn lemma_insert_arranged(
    out: Seq<usize>,
    keep: Seq<bool>,
    le: spec_fn(int, int) -> bool,
    at: int,
    i: usize,
)
    requires
        i < keep.len(),
        keep[i as int],
        is_preorder(le, keep.len() as int),
        is_arranged(out, keep.take(i as int), le),
        0 <= at <= out.len(),
        forall|p: int| 0 <= p < at ==> le(#[trigger] out[p] as int, i as int),
        forall|p: int| at <= p < out.len() ==> !le(#[trigger] out[p] as int, i as int),
    ensures
        is_arranged(out.insert(at, i), keep.take(i + 1), le),
{
    let new = out.insert(at, i);
    let head = keep.take(i as int);
    let after = keep.take(i + 1);
    assert forall|p: int| 0 <= p < new.len() implies (#[trigger] new[p]) < after.len()
        && after[new[p] as int] by {
        if p < at {
            assert(new[p] == out[p]);
            assert(head[out[p] as int]);
        } else if p > at {
            assert(new[p] == out[p - 1]);
            assert(head[out[p - 1] as int]);
        }
    }
    assert forall|k: int| 0 <= k < after.len() && #[trigger] after[k] implies exists|p: int|
        0 <= p < new.len() && new[p] == k by {
        if k == i {
            assert(new[at] == k);
        } else {
            assert(head[k]);
            let p = choose|p: int| 0 <= p < out.len() && out[p] == k;
            if p < at {
                assert(new[p] == k);
            } else {
                assert(new[p + 1] == k);
            }
        }
    }
    assert forall|p: int, q: int| 0 <= p < q < new.len() implies before(
        le,
        #[trigger] new[p] as int,
        #[trigger] new[q] as int,
    ) by {
        if p == at {
            let o = out[q - 1];
            assert(new[q] == o);
            assert(o < head.len());
            assert(!le(o as int, i as int));
        } else if q == at {
            assert(new[p] == out[p]);
            assert(head[out[p] as int]);
        } else {
            let po = if p < at { p } else { p - 1 };
            let qo = if q < at { q } else { q - 1 };
            assert(new[p] == out[po] && new[q] == out[qo]);
        }
    }
}

proof fn lemma_skip_arranged(
    out: Seq<usize>,
    keep: Seq<bool>,
    le: spec_fn(int, int) -> bool,
    i: int,
)
    requires
        0 <= i < keep.len(),
        !keep[i],
        is_arranged(out, keep.take(i), le),
    ensures
        is_arranged(out, keep.take(i + 1), le),
{
    let head = keep.take(i);
    let after = keep.take(i + 1);
    assert forall|p: int| 0 <= p < out.len() implies (#[trigger] out[p]) < after.len()
        && after[out[p] as int] by {
        assert(head[out[p] as int]);
    }
    assert forall|k: int| 0 <= k < after.len() && #[trigger] after[k] implies exists|p: int|
        0 <= p < out.len() && out[p] == k by {
        assert(head[k]);
    }
}

/// Where `i` goes among the first `at` of `out`.
spec fn slot_for(out: Seq<usize>, le: spec_fn(int, int) -> bool, at: nat, i: int) -> nat
    decreases at,
{
    if at == 0 || le(out[at - 1] as int, i) {
        at
    } else {
        slot_for(out, le, (at - 1) as nat, i)
    }
}

proof fn lemma_slot_for(out: Seq<usize>, le: spec_fn(int, int) -> bool, at: nat, i: int)
    requires
        at <= out.len(),
    ensures
        slot_for(out, le, at, i) <= at,
        slot_for(out, le, at, i) > 0 ==> le(out[slot_for(out, le, at, i) - 1] as int, i),
        forall|p: int| slot_for(out, le, at, i) <= p < at ==> !le(#[trigger] out[p] as int, i),
    decreases at,
{
    if at > 0 && !le(out[at - 1] as int, i) {
        lemma_slot_for(out, le, (at - 1) as nat, i);
    }
}

proof fn lemma_before_slot(
    out: Seq<usize>,
    keep: Seq<bool>,
    le: spec_fn(int, int) -> bool,
    at: int,
    i: int,
)
    requires
        0 <= i < keep.len(),
        is_preorder(le, keep.len() as int),
        is_arranged(out, keep.take(i), le),
        0 < at <= out.len(),
        le(out[at - 1] as int, i),
    ensures
        forall|p: int| 0 <= p < at ==> le(#[trigger] out[p] as int, i),
{
    assert forall|p: int| 0 <= p < at implies le(#[trigger] out[p] as int, i) by {
        if p < at - 1 {
            assert(before(le, out[p] as int, out[at - 1] as int));
        }
    }
}

proof fn lemma_arrangement(keep: Seq<bool>, le: spec_fn(int, int) -> bool, n: nat) -> (out: Seq<
    usize,
>)
    requires
        n <= keep.len() <= usize::MAX,
        is_preorder(le, keep.len() as int),
    ensures
        is_arranged(out, keep.take(n as int), le),
    decreases n,
{
    if n == 0 {
        Seq::empty()
    } else {
        let i = (n - 1) as usize;
        let out = lemma_arrangement(keep, le, (n - 1) as nat);
        if keep[i as int] {
            let at = slot_for(out, le, out.len(), i as int);
            lemma_slot_for(out, le, out.len(), i as int);
            if at > 0 {
                lemma_before_slot(out, keep, le, at as int, i as int);
            }
            lemma_insert_arranged(out, keep, le, at as int, i);
            out.insert(at as int, i)
        } else {
            lemma_skip_arranged(out, keep, le, i as int);
            out
        }
    }
}

/// List the indices that `keep` marks, by key; a stable insertion sort.
pub fn listing<K: Ordered>(keep: &Vec<bool>, keys: &Vec<K>) -> (out: Vec<usize>)
    requires
        keep.len() == keys.len(),
    ensures
        is_listing(out@, keep@, keys@),
{
    let mut out: Vec<usize> = Vec::new();
    let mut i: usize = 0;
    while i < keep.len()
        invariant
            keep.len() == keys.len(),
            i <= keep.len(),
            is_listing(out@, keep@.take(i as int), keys@),
        decreases keep.len() - i,
    {
        if keep[i] {
            let mut at: usize = out.len();
            while at > 0 && !keys[out[at - 1]].not_after(&keys[i])
                invariant
                    keep.len() == keys.len(),
                    i < keep.len(),
                    at <= out.len(),
                    is_listing(out@, keep@.take(i as int), keys@),
                    forall|p: int|
                        at <= p < out.len() ==> !keys@[#[trigger] out@[p] as int].at_most(
                            keys@[i as int],
                        ),
                decreases at,
            {
                at -= 1;
            }
            proof {
                lemma_by_key(out@, keep@.take(i as int), keys@);
                if at > 0 {
                    lemma_before_slot(out@, keep@, by_key(keys@), at as int, i as int);
                }
                lemma_insert_arranged(out@, keep@, by_key(keys@), at as int, i);
                lemma_by_key(out@.insert(at as int, i), keep@.take(i + 1), keys@);
            }
            out.insert(at, i);
        } else {
            proof {
                lemma_by_key(out@, keep@.take(i as int), keys@);
                lemma_skip_arranged(out@, keep@, by_key(keys@), i as int);
                lemma_by_key(out@, keep@.take(i + 1), keys@);
            }
        }
        i += 1;
    }
    proof {
        assert(keep@.take(keep@.len() as int) =~= keep@);
    }
    out
}

proof fn lemma_sorted_same(s: Seq<usize>, t: Seq<usize>, le: spec_fn(int, int) -> bool)
    requires
        forall|p: int, q: int|
            0 <= p < q < s.len() ==> before(le, #[trigger] s[p] as int, #[trigger] s[q] as int),
        forall|p: int, q: int|
            0 <= p < q < t.len() ==> before(le, #[trigger] t[p] as int, #[trigger] t[q] as int),
        forall|x: usize| #[trigger] s.contains(x) <==> t.contains(x),
    ensures
        s == t,
    decreases s.len(),
{
    if s.len() == 0 {
        if t.len() > 0 {
            assert(t.contains(t[0]));
            assert(s.contains(t[0]));
        }
        assert(s =~= t);
    } else {
        assert(s.contains(s[0]));
        let q = choose|q: int| 0 <= q < t.len() && t[q] == s[0];
        assert(t.contains(t[0]));
        assert(s.contains(t[0]));
        let p = choose|p: int| 0 <= p < s.len() && s[p] == t[0];
        if q > 0 {
            assert(before(le, t[0] as int, t[q] as int));
            if p > 0 {
                assert(before(le, s[0] as int, s[p] as int));
            }
            assert(false);
        }
        let s1 = s.drop_first();
        let t1 = t.drop_first();
        assert forall|x: usize| #[trigger] s1.contains(x) <==> t1.contains(x) by {
            if s1.contains(x) {
                let k = choose|k: int| 0 <= k < s1.len() && s1[k] == x;
                assert(s[k + 1] == x);
                assert(before(le, s[0] as int, s[k + 1] as int));
                assert(s.contains(x));
                let j = choose|j: int| 0 <= j < t.len() && t[j] == x;
                assert(j > 0);
                assert(t1[j - 1] == x);
            }
            if t1.contains(x) {
                let k = choose|k: int| 0 <= k < t1.len() && t1[k] == x;
                assert(t[k + 1] == x);
                assert(before(le, t[0] as int, t[k + 1] as int));
                assert(t.contains(x));
                assert(s.contains(x));
                let j = choose|j: int| 0 <= j < s.len() && s[j] == x;
                assert(j > 0);
                assert(s1[j - 1] == x);
            }
        }
        assert forall|a: int, b: int| 0 <= a < b < s1.len() implies before(
            le,
            #[trigger] s1[a] as int,
            #[trigger] s1[b] as int,
        ) by {
            assert(s1[a] == s[a + 1] && s1[b] == s[b + 1]);
        }
        assert forall|a: int, b: int| 0 <= a < b < t1.len() implies before(
            le,
            #[trigger] t1[a] as int,
            #[trigger] t1[b] as int,
        ) by {
            assert(t1[a] == t[a + 1] && t1[b] == t[b + 1]);
        }
        lemma_sorted_same(s1, t1, le);
        assert(s =~= seq![s[0]] + s1);
        assert(t =~= seq![t[0]] + t1);
    }
}

/// The marks and the order leave no choice: two arrangements are equal.
pub proof fn arrangement_is_unique(
    s: Seq<usize>,
    t: Seq<usize>,
    keep: Seq<bool>,
    le: spec_fn(int, int) -> bool,
)
    requires
        is_arranged(s, keep, le),
        is_arranged(t, keep, le),
    ensures
        s == t,
{
    assert forall|x: usize| #[trigger] s.contains(x) <==> t.contains(x) by {
        if s.contains(x) {
            assert(keep[x as int]);
            let p = choose|p: int| 0 <= p < t.len() && t[p] == x as int;
            assert(t[p] == x);
        }
        if t.contains(x) {
            assert(keep[x as int]);
            let p = choose|p: int| 0 <= p < s.len() && s[p] == x as int;
            assert(s[p] == x);
        }
    }
    lemma_sorted_same(s, t, le);
}

/// The arrangement that marks and an order determine.
pub open spec fn arrangement_of(keep: Seq<bool>, le: spec_fn(int, int) -> bool) -> Seq<usize> {
    choose|out: Seq<usize>| is_arranged(out, keep, le)
}

/// Marks and an order always have an arrangement.
pub proof fn arrangement_exists(keep: Seq<bool>, le: spec_fn(int, int) -> bool)
    requires
        keep.len() <= usize::MAX,
        is_preorder(le, keep.len() as int),
    ensures
        is_arranged(arrangement_of(keep, le), keep, le),
{
    let out = lemma_arrangement(keep, le, keep.len());
    assert(keep.take(keep.len() as int) =~= keep);
}

/// The marks and the keys leave no choice: two listings of them are equal.
pub proof fn listing_is_unique<K: Ordered>(
    s: Seq<usize>,
    t: Seq<usize>,
    keep: Seq<bool>,
    keys: Seq<K>,
)
    requires
        is_listing(s, keep, keys),
        is_listing(t, keep, keys),
    ensures
        s == t,
{
    lemma_by_key(s, keep, keys);
    lemma_by_key(t, keep, keys);
    arrangement_is_unique(s, t, keep, by_key(keys));
}

/// Marks and keys always have a listing.
pub proof fn listing_exists<K: Ordered>(keep: Seq<bool>, keys: Seq<K>)
    requires
        keep.len() <= usize::MAX,
    ensures
        is_listing(listing_of(keep, keys), keep, keys),
{
    let out = arrangement_of(keep, by_key(keys));
    lemma_by_key(out, keep, keys);
    assert(is_preorder(by_key(keys), keep.len() as int));
    arrangement_exists(keep, by_key(keys));
}

/// A listing names no index twice.
pub proof fn listing_has_no_repeats<K: Ordered>(out: Seq<usize>, keep: Seq<bool>, keys: Seq<K>)
    requires
        is_listing(out, keep, keys),
    ensures
        out.no_duplicates(),
{
    assert forall|p: int, q: int| 0 <= p < out.len() && 0 <= q < out.len() && p != q implies out[p]
        != out[q] by {
        if p < q {
            assert(ahead(keys, out[p] as int, out[q] as int));
        } else {
            assert(ahead(keys, out[q] as int, out[p] as int));
        }
    }
}

/// The listing that marks and keys determine.
pub open spec fn listing_of<K: Ordered>(keep: Seq<bool>, keys: Seq<K>) -> Seq<usize> {
    choose|out: Seq<usize>| is_listing(out, keep, keys)
}

/// Any listing is the one that the marks and the keys determine.
pub proof fn lemma_listing_of<K: Ordered>(out: Seq<usize>, keep: Seq<bool>, keys: Seq<K>)
    requires
        is_listing(out, keep, keys),
    ensures
        out == listing_of(keep, keys),
{
    listing_is_unique(out, listing_of(keep, keys), keep, keys);
}

} // verus!
