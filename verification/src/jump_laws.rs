//! What a jump query lists, in which order, and what it highlights, said of the
//! characters of the areas and labels.
use crate::jump;
use crate::jump::{JumpCandidate, JumpHit};
use crate::order;
use crate::search;
use crate::text;
use vstd::prelude::*;

verus! {

/// The same character, or the same letter of ASCII in the other case.
pub open spec fn same_letter(a: char, b: char) -> bool {
    ||| a == b
    ||| 'A' <= a <= 'Z' && b as int == a as int + 32
    ||| 'A' <= b <= 'Z' && a as int == b as int + 32
}

/// The characters of `needle` stand in `text` at the positions `at`, one after
/// the other, letter case aside.
pub open spec fn occurs_at(text: Seq<char>, needle: Seq<char>, at: Seq<int>) -> bool {
    &&& at.len() == needle.len()
    &&& forall|k: int|
        0 <= k < at.len() ==> 0 <= #[trigger] at[k] < text.len() && same_letter(
            text[at[k]],
            needle[k],
        )
    &&& forall|j: int, k: int| 0 <= j < k < at.len() ==> #[trigger] at[j] < #[trigger] at[k]
}

/// Of all the places where `needle` stands in `text` this one has every
/// character first.
pub open spec fn occurs_first_at(text: Seq<char>, needle: Seq<char>, at: Seq<int>) -> bool {
    &&& occurs_at(text, needle, at)
    &&& forall|other: Seq<int>, k: int| #[trigger]
        occurs_at(text, needle, other) && 0 <= k < at.len() ==> at[k] <= #[trigger] other[k]
}

/// The folded forms agree exactly where the letters do.
pub proof fn folding_ignores_case_only(a: char, b: char)
    ensures
        search::fold(a) == search::fold(b) <==> same_letter(a, b),
{
}

proof fn lemma_occurs(hay: Seq<char>, needle: Seq<char>, at: Seq<int>)
    ensures
        search::embeds(hay, needle, at) <==> occurs_at(hay, needle, at),
{
    if search::embeds(hay, needle, at) {
        assert forall|k: int| 0 <= k < at.len() implies 0 <= #[trigger] at[k] < hay.len()
            && same_letter(hay[at[k]], needle[k]) by {
            folding_ignores_case_only(hay[at[k]], needle[k]);
        }
    }
    if occurs_at(hay, needle, at) {
        assert forall|k: int| 0 <= k < at.len() implies 0 <= #[trigger] at[k] < hay.len()
            && search::fold(hay[at[k]]) == search::fold(needle[k]) by {
            folding_ignores_case_only(hay[at[k]], needle[k]);
        }
    }
}

proof fn lemma_leftmost_grows(hay: Seq<char>, needle: Seq<char>, n: int)
    requires
        0 <= n <= hay.len(),
    ensures
        search::leftmost(hay.take(n), needle).len() <= search::leftmost(hay, needle).len(),
        forall|k: int|
            0 <= k < search::leftmost(hay.take(n), needle).len() ==> #[trigger] search::leftmost(
                hay,
                needle,
            )[k] == search::leftmost(hay.take(n), needle)[k],
    decreases hay.len() - n,
{
    if n < hay.len() {
        lemma_leftmost_grows(hay, needle, n + 1);
        assert(hay.take(n + 1).drop_last() =~= hay.take(n));
        let a = search::leftmost(hay.take(n), needle);
        let b = search::leftmost(hay.take(n + 1), needle);
        assert forall|k: int| 0 <= k < a.len() implies #[trigger] search::leftmost(hay, needle)[k]
            == a[k] by {
            assert(b[k] == a[k]);
        }
    } else {
        assert(hay.take(n) =~= hay);
    }
}

/// A match is found exactly when the query occurs in the text, and the offsets
/// are those of the place where every character of it comes first.
pub proof fn match_is_the_first_place(hay: Seq<char>, needle: Seq<char>) -> (at: Seq<int>)
    ensures
        match search::subseq_positions(hay, needle) {
            Some(pos) => {
                &&& occurs_first_at(hay, needle, at)
                &&& pos.len() == at.len()
                &&& forall|k: int|
                    0 <= k < at.len() ==> #[trigger] pos[k] == text::byte_len(hay.take(at[k]))
            },
            None => forall|other: Seq<int>| !#[trigger] occurs_at(hay, needle, other),
        },
{
    let at = search::leftmost(hay, needle);
    search::match_iff_subsequence(hay, needle);
    assert forall|other: Seq<int>| search::embeds(hay, needle, other) == #[trigger] occurs_at(
        hay,
        needle,
        other,
    ) by {
        lemma_occurs(hay, needle, other);
    }
    if search::subseq_positions(hay, needle) is Some {
        search::lemma_leftmost_embeds(hay, needle);
        assert(needle.take(needle.len() as int) =~= needle);
        lemma_occurs(hay, needle, at);
        assert forall|other: Seq<int>, k: int| #[trigger]
            occurs_at(hay, needle, other) && 0 <= k < at.len() implies at[k]
            <= #[trigger] other[k] by {
            lemma_occurs(hay, needle, other);
            let n = other[k] + 1;
            let part = other.take(k + 1);
            assert(part.len() == k + 1);
            assert forall|j: int| 0 <= j < part.len() implies 0 <= #[trigger] part[j] < hay.take(
                n,
            ).len() && search::fold(hay.take(n)[part[j]]) == search::fold(
                needle.take(k + 1)[j],
            ) by {
                assert(part[j] == other[j]);
                if j < k {
                    assert(other[j] < other[k]);
                }
                assert(hay.take(n)[other[j]] == hay[other[j]]);
            }
            assert forall|i: int, j: int| 0 <= i < j < part.len() implies #[trigger] part[i]
                < #[trigger] part[j] by {
                assert(other[i] < other[j]);
            }
            search::lemma_leftmost_covers(hay.take(n), needle, part);
            lemma_leftmost_grows(hay, needle, n);
            search::lemma_leftmost_embeds(hay.take(n), needle);
            let early = search::leftmost(hay.take(n), needle);
            assert(early[k] < n);
            assert(at[k] == early[k]);
        }
    }
    at
}

/// A query lists a candidate exactly when its characters occur, in order and
/// letter case aside, in the label or, where there is an area, in the area, one
/// space and the label.
pub proof fn query_reads_area_then_label(
    hits: Seq<JumpHit>,
    cands: Seq<JumpCandidate>,
    needle: Seq<char>,
    i: int,
)
    requires
        jump::answers(hits, cands, needle),
        0 <= i < cands.len(),
    ensures
        cands[i].area@.len() == 0 ==> ((exists|p: int|
            0 <= p < hits.len() && (#[trigger] hits[p]).cand == i) <==> exists|at: Seq<int>|
            #[trigger] occurs_at(cands[i].label@, needle, at)),
        cands[i].area@.len() > 0 ==> ((exists|p: int|
            0 <= p < hits.len() && (#[trigger] hits[p]).cand == i) <==> exists|at: Seq<int>|
            #[trigger] occurs_at(cands[i].area@ + seq![' '] + cands[i].label@, needle, at)),
{
    let c = cands[i];
    let hay = if c.area@.len() == 0 {
        c.label@
    } else {
        c.area@ + seq![' '] + c.label@
    };
    assert(jump::haystack(c) =~= hay);
    jump::query_lists_exactly_the_matches(hits, cands, needle, i);
    if exists|at: Seq<int>| search::embeds(hay, needle, at) {
        let at = choose|at: Seq<int>| search::embeds(hay, needle, at);
        lemma_occurs(hay, needle, at);
        assert(occurs_at(hay, needle, at));
    }
    if exists|at: Seq<int>| #[trigger] occurs_at(hay, needle, at) {
        let at = choose|at: Seq<int>| #[trigger] occurs_at(hay, needle, at);
        lemma_occurs(hay, needle, at);
        assert(search::embeds(hay, needle, at));
    }
}

/// Part of the area followed by part of the label lists the candidate, and so
/// does the same with a space between the two where there is an area.
pub proof fn query_may_begin_in_the_area(
    hits: Seq<JumpHit>,
    cands: Seq<JumpCandidate>,
    of_area: Seq<char>,
    of_label: Seq<char>,
    spaced: bool,
    i: int,
    in_area: Seq<int>,
    in_label: Seq<int>,
)
    requires
        0 <= i < cands.len(),
        cands[i].area@.len() > 0,
        jump::answers(
            hits,
            cands,
            if spaced {
                of_area + seq![' '] + of_label
            } else {
                of_area + of_label
            },
        ),
        occurs_at(cands[i].area@, of_area, in_area),
        occurs_at(cands[i].label@, of_label, in_label),
    ensures
        exists|p: int| 0 <= p < hits.len() && (#[trigger] hits[p]).cand == i,
{
    let area = cands[i].area@;
    let label = cands[i].label@;
    let gap = if spaced {
        seq![' ']
    } else {
        Seq::empty()
    };
    let needle = if spaced {
        of_area + seq![' '] + of_label
    } else {
        of_area + of_label
    };
    assert(needle =~= of_area + gap + of_label);
    let hay = area + seq![' '] + label;
    let between = if spaced {
        seq![area.len() as int]
    } else {
        Seq::empty()
    };
    let behind = Seq::new(in_label.len(), |k: int| area.len() + 1 + in_label[k]);
    let at = in_area + between + behind;
    let a = in_area.len() as int;
    let b = a + between.len();
    assert forall|k: int| 0 <= k < at.len() implies 0 <= #[trigger] at[k] < hay.len()
        && same_letter(hay[at[k]], needle[k]) by {
        if k < a {
            assert(at[k] == in_area[k]);
        } else if k >= b {
            assert(at[k] == behind[k - b]);
            assert(0 <= in_label[k - b] < label.len());
            assert(hay[at[k]] == label[in_label[k - b]]);
        }
    }
    assert forall|j: int, k: int| 0 <= j < k < at.len() implies #[trigger] at[j]
        < #[trigger] at[k] by {
        if j < a {
            assert(at[j] == in_area[j]);
        } else if j >= b {
            assert(at[j] == behind[j - b] && at[k] == behind[k - b]);
            assert(in_label[j - b] < in_label[k - b]);
        }
        if k < a {
            assert(at[k] == in_area[k]);
        } else if k >= b {
            assert(at[k] == behind[k - b]);
            assert(0 <= in_label[k - b]);
        }
    }
    assert(occurs_at(hay, needle, at));
    query_reads_area_then_label(hits, cands, needle, i);
}

/// The highlights of a hit are the offsets, in its label, of the place where
/// every character of the query comes first; there are none where the label by
/// itself does not hold the query, or the query is empty.
pub proof fn highlights_show_the_first_place(
    hits: Seq<JumpHit>,
    cands: Seq<JumpCandidate>,
    needle: Seq<char>,
    p: int,
) -> (at: Seq<int>)
    requires
        jump::answers(hits, cands, needle),
        0 <= p < hits.len(),
    ensures
        ({
            let label = cands[hits[p].cand as int].label@;
            let marks = hits[p].positions@;
            &&& marks.len() == 0 || marks.len() == needle.len()
            &&& marks.len() == 0 ==> needle.len() == 0 || forall|other: Seq<int>|
                !#[trigger] occurs_at(label, needle, other)
            &&& marks.len() > 0 ==> occurs_first_at(label, needle, at)
            &&& forall|k: int|
                0 <= k < marks.len() ==> #[trigger] marks[k] == text::byte_len(label.take(at[k]))
        }),
{
    let label = cands[hits[p].cand as int].label@;
    let marks = hits[p].positions@;
    let at = match_is_the_first_place(label, needle);
    if needle.len() > 0 {
        let shown = search::ints(marks);
        assert(shown.len() == marks.len());
        assert forall|k: int| 0 <= k < marks.len() implies #[trigger] marks[k] == text::byte_len(
            label.take(at[k]),
        ) by {
            assert(shown[k] == marks[k]);
        }
    }
    at
}

/// Every hit of a query holds it, and where two hits hold it at their first
/// places the hit listed first packs it more tightly, or as tightly under a
/// shorter label, or as tightly under a label as long and comes first among
/// the candidates.
pub proof fn better_places_are_listed_first(
    hits: Seq<JumpHit>,
    cands: Seq<JumpCandidate>,
    needle: Seq<char>,
    p: int,
    q: int,
) -> (places: (Seq<int>, Seq<int>))
    requires
        jump::answers(hits, cands, needle),
        needle.len() > 0,
        0 <= p < q < hits.len(),
        forall|i: int|
            0 <= i < cands.len() ==> text::byte_len((#[trigger] cands[i]).label@) + text::byte_len(
                cands[i].area@,
            ) < usize::MAX,
    ensures
        ({
            let a = cands[hits[p].cand as int];
            let b = cands[hits[q].cand as int];
            let x = if a.area@.len() == 0 {
                a.label@
            } else {
                a.area@ + seq![' '] + a.label@
            };
            let y = if b.area@.len() == 0 {
                b.label@
            } else {
                b.area@ + seq![' '] + b.label@
            };
            let of_x = text::byte_len(x.take(places.0.last())) - text::byte_len(
                x.take(places.0.first()),
            );
            let of_y = text::byte_len(y.take(places.1.last())) - text::byte_len(
                y.take(places.1.first()),
            );
            &&& occurs_first_at(x, needle, places.0)
            &&& occurs_first_at(y, needle, places.1)
            &&& of_x < of_y || of_x == of_y && (text::byte_len(a.label@) < text::byte_len(b.label@)
                || text::byte_len(a.label@) == text::byte_len(b.label@) && hits[p].cand
                < hits[q].cand)
        }),
{
    let listed = jump::hit_cands(hits);
    assert(listed[p] == hits[p].cand && listed[q] == hits[q].cand);
    let a = cands[hits[p].cand as int];
    let b = cands[hits[q].cand as int];
    let x = jump::haystack(a);
    let y = jump::haystack(b);
    if a.area@.len() > 0 {
        assert(x =~= a.area@ + seq![' '] + a.label@);
    }
    if b.area@.len() > 0 {
        assert(y =~= b.area@ + seq![' '] + b.label@);
    }
    assert(jump::passing(cands, needle)[listed[p] as int]);
    assert(jump::passing(cands, needle)[listed[q] as int]);
    let at_x = match_is_the_first_place(x, needle);
    let at_y = match_is_the_first_place(y, needle);
    lemma_joined_len(a);
    lemma_joined_len(b);
    jump::lemma_span_bounds(a, needle);
    jump::lemma_span_bounds(b, needle);
    let px = search::subseq_positions(x, needle)->0;
    let py = search::subseq_positions(y, needle)->0;
    assert(px[0] == text::byte_len(x.take(at_x[0])));
    assert(py[0] == text::byte_len(y.take(at_y[0])));
    assert(px[px.len() - 1] == text::byte_len(x.take(at_x[px.len() - 1])));
    assert(py[py.len() - 1] == text::byte_len(y.take(at_y[py.len() - 1])));
    let keys = jump::ranks(cands, needle);
    assert(order::ahead(keys, listed[p] as int, listed[q] as int));
    assert(keys[listed[p] as int] == jump::rank(a, needle));
    assert(keys[listed[q] as int] == jump::rank(b, needle));
    (at_x, at_y)
}

proof fn lemma_joined_len(c: JumpCandidate)
    ensures
        text::byte_len(jump::haystack(c)) <= text::byte_len(c.area@) + 1 + text::byte_len(c.label@),
{
    if c.area@.len() > 0 {
        let head = c.area@.push(' ');
        assert(head.drop_last() =~= c.area@);
        text::lemma_byte_len_add(head, c.label@);
    }
}

/// An empty query lists every candidate in its own order and highlights
/// nothing.
pub proof fn empty_query_lists_everything(hits: Seq<JumpHit>, cands: Seq<JumpCandidate>)
    requires
        jump::answers(hits, cands, Seq::empty()),
    ensures
        hits.len() == cands.len(),
        forall|p: int|
            0 <= p < hits.len() ==> (#[trigger] hits[p]).cand == p && hits[p].positions@.len() == 0,
{
}

} // verus!
