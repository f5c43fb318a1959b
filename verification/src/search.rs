//! Case-insensitive subsequence matching.
use crate::text;
use crate::text::{bytes_in, chars_of, width_of};
use vstd::prelude::*;

verus! {

/// A letter of ASCII in lower case; any other character as it is.
pub open spec fn fold(c: char) -> char {
    if 'A' <= c && c <= 'Z' {
        (c as u32 + 32) as char
    } else {
        c
    }
}

/// A letter of ASCII in lower case; any other character as it is.
pub fn fold_case(c: char) -> (r: char)
    ensures
        r == fold(c),
{
    if 'A' <= c && c <= 'Z' {
        let lower: u8 = c as u8 + 32;
        lower as char
    } else {
        c
    }
}

/// The character positions in `hay` at which the characters of `needle` are
/// found one after the other, each as early as it can be.
pub open spec fn leftmost(hay: Seq<char>, needle: Seq<char>) -> Seq<int>
    decreases hay.len(),
{
    if hay.len() == 0 {
        Seq::empty()
    } else {
        let m = leftmost(hay.drop_last(), needle);
        if m.len() < needle.len() && fold(hay.last()) == fold(needle[m.len() as int]) {
            m.push(hay.len() - 1)
        } else {
            m
        }
    }
}

/// Byte offsets of character positions.
pub open spec fn offsets(s: Seq<char>, at: Seq<int>) -> Seq<int> {
    Seq::new(at.len(), |i: int| text::byte_len(s.take(at[i])) as int)
}

/// The byte offsets of the leftmost match of all of `needle`, if there is one.
pub open spec fn subseq_positions(hay: Seq<char>, needle: Seq<char>) -> Option<Seq<int>> {
    let m = leftmost(hay, needle);
    if m.len() == needle.len() {
        Some(offsets(hay, m))
    } else {
        None
    }
}

/// Machine integers as mathematical ones.
pub open spec fn ints(s: Seq<usize>) -> Seq<int> {
    Seq::new(s.len(), |i: int| s[i] as int)
}

/// `at` places every character of `needle` in `hay`, in order.
pub open spec fn embeds(hay: Seq<char>, needle: Seq<char>, at: Seq<int>) -> bool {
    &&& at.len() == needle.len()
    &&& forall|k: int|
        0 <= k < at.len() ==> 0 <= #[trigger] at[k] < hay.len() && fold(hay[at[k]]) == fold(
            needle[k],
        )
    &&& forall|j: int, k: int| 0 <= j < k < at.len() ==> #[trigger] at[j] < #[trigger] at[k]
}

/// The leftmost match is a match of the part of `needle` that it covers.
pub proof fn lemma_leftmost_embeds(hay: Seq<char>, needle: Seq<char>)
    ensures
        leftmost(hay, needle).len() <= needle.len(),
        embeds(
            hay,
            needle.take(leftmost(hay, needle).len() as int),
            leftmost(hay, needle),
        ),
    decreases hay.len(),
{
    if hay.len() > 0 {
        let before = hay.drop_last();
        let m = leftmost(before, needle);
        lemma_leftmost_embeds(before, needle);
        let n = leftmost(hay, needle);
        assert forall|k: int| 0 <= k < n.len() implies 0 <= #[trigger] n[k] < hay.len() && fold(
            hay[n[k]],
        ) == fold(needle.take(n.len() as int)[k]) by {
            if k < m.len() {
                assert(n[k] == m[k]);
                assert(hay[m[k]] == before[m[k]]);
                assert(needle.take(m.len() as int)[k] == needle[k]);
            }
        }
    }
}

/// A match of the first part of `needle` is no longer than the leftmost one.
pub proof fn lemma_leftmost_covers(hay: Seq<char>, needle: Seq<char>, at: Seq<int>)
    requires
        at.len() <= needle.len(),
        embeds(hay, needle.take(at.len() as int), at),
    ensures
        leftmost(hay, needle).len() >= at.len(),
    decreases hay.len(),
{
    if at.len() > 0 {
        let n = at.len() as int;
        assert(0 <= at[n - 1] < hay.len());
        let before = hay.drop_last();
        let m = leftmost(before, needle);
        if at[n - 1] < hay.len() - 1 {
            assert forall|k: int| 0 <= k < n implies 0 <= #[trigger] at[k] < before.len() && fold(
                before[at[k]],
            ) == fold(needle.take(n)[k]) by {
                if k < n - 1 {
                    assert(at[k] < at[n - 1]);
                }
            }
            lemma_leftmost_covers(before, needle, at);
        } else {
            let rest = at.drop_last();
            assert forall|k: int| 0 <= k < n - 1 implies 0 <= #[trigger] rest[k] < before.len()
                && fold(before[rest[k]]) == fold(needle.take(n - 1)[k]) by {
                assert(rest[k] == at[k]);
                assert(at[k] < at[n - 1]);
                assert(needle.take(n)[k] == needle.take(n - 1)[k]);
            }
            lemma_leftmost_covers(before, needle, rest);
            assert(fold(hay.last()) == fold(needle.take(n)[n - 1]));
        }
    }
}

/// A match is found exactly when the characters of `needle` occur in `hay` in
/// order, letter case aside.
pub proof fn match_iff_subsequence(hay: Seq<char>, needle: Seq<char>)
    ensures
        subseq_positions(hay, needle) is Some <==> exists|at: Seq<int>| embeds(hay, needle, at),
{
    lemma_leftmost_embeds(hay, needle);
    assert(needle.take(needle.len() as int) =~= needle);
    if subseq_positions(hay, needle) is Some {
        assert(embeds(hay, needle, leftmost(hay, needle)));
    }
    if exists|at: Seq<int>| embeds(hay, needle, at) {
        let at = choose|at: Seq<int>| embeds(hay, needle, at);
        lemma_leftmost_covers(hay, needle, at);
    }
}

/// Offsets of a match ascend and lie inside the text.
pub proof fn match_positions_ascend(hay: Seq<char>, needle: Seq<char>)
    ensures
        subseq_positions(hay, needle) matches Some(pos) ==> {
            &&& forall|k: int| 0 <= k < pos.len() ==> 0 <= #[trigger] pos[k] < text::byte_len(hay)
            &&& forall|j: int, k: int|
                0 <= j < k < pos.len() ==> #[trigger] pos[j] < #[trigger] pos[k]
        },
{
    let m = leftmost(hay, needle);
    lemma_leftmost_embeds(hay, needle);
    if m.len() == needle.len() {
        let pos = offsets(hay, m);
        assert(hay.take(hay.len() as int) =~= hay);
        assert forall|k: int| 0 <= k < pos.len() implies 0 <= #[trigger] pos[k] < text::byte_len(hay) by {
            assert(0 <= m[k] < hay.len());
            text::lemma_byte_len_prefix(hay, m[k], hay.len() as int);
        }
        assert forall|j: int, k: int| 0 <= j < k < pos.len() implies #[trigger] pos[j]
            < #[trigger] pos[k] by {
            assert(m[j] < m[k]);
            text::lemma_byte_len_prefix(hay, m[j], m[k]);
        }
    }
}

/// A character of `s` begins at the byte offset `p`.
pub open spec fn begins_character(s: Seq<char>, p: int) -> bool {
    exists|i: int| 0 <= i < s.len() && text::byte_len(#[trigger] s.take(i)) == p
}

/// `pos` are byte offsets at which characters of `s` begin.
pub open spec fn on_characters(s: Seq<char>, pos: Seq<int>) -> bool {
    forall|k: int| 0 <= k < pos.len() ==> begins_character(s, #[trigger] pos[k])
}

/// A character of `s` begins at the byte offset `q` and ends after `p`.
pub open spec fn reaches_past(s: Seq<char>, q: int, p: int) -> bool {
    exists|i: int|
        0 <= i < s.len() && text::byte_len(#[trigger] s.take(i)) == q && p < text::byte_len(
            s.take(i + 1),
        )
}

/// `s` can be cut at the offsets `pos`, taken in order: each of them that lies
/// within `s` begins a character, or is passed over because the character at
/// an offset before it reaches past it.
pub open spec fn can_be_cut(s: Seq<char>, pos: Seq<int>) -> bool {
    forall|k: int|
        0 <= k < pos.len() && #[trigger] pos[k] < text::byte_len(s) ==> begins_character(s, pos[k])
            || exists|j: int| 0 <= j < k && reaches_past(s, #[trigger] pos[j], pos[k])
}

/// Offsets of a match are those of characters.
pub proof fn match_positions_are_characters(hay: Seq<char>, needle: Seq<char>)
    ensures
        subseq_positions(hay, needle) matches Some(pos) ==> on_characters(hay, pos),
{
    let m = leftmost(hay, needle);
    lemma_leftmost_embeds(hay, needle);
    if m.len() == needle.len() {
        let pos = offsets(hay, m);
        assert forall|k: int| 0 <= k < pos.len() implies begins_character(
            hay,
            #[trigger] pos[k],
        ) by {
            assert(0 <= m[k] < hay.len());
            assert(text::byte_len(hay.take(m[k])) == pos[k]);
        }
    }
}

/// Byte offsets in `hay` of the characters of `needle`, found in order with
/// ASCII letter case ignored and each as early as possible; `None` when some
/// character is not found.
pub fn subseq_match_ci(hay: &str, needle: &str) -> (r: Option<Vec<usize>>)
    ensures
        match r {
            Some(v) => subseq_positions(hay@, needle@) == Some(ints(v@)),
            None => subseq_positions(hay@, needle@) is None,
        },
{
    let total: usize = bytes_in(hay);
    let h: Vec<char> = chars_of(hay);
    let n: Vec<char> = chars_of(needle);
    let mut out: Vec<usize> = Vec::new();
    let mut i: usize = 0;
    let mut off: usize = 0;
    while i < h.len()
        invariant
            h@ == hay@,
            n@ == needle@,
            total == text::byte_len(h@),
            i <= h.len(),
            off == text::byte_len(h@.take(i as int)),
            out@.len() <= n@.len(),
            ints(out@) == offsets(h@, leftmost(h@.take(i as int), n@)),
        decreases h.len() - i,
    {
        let ghost seen = h@.take(i as int);
        let ghost next = h@.take(i + 1);
        proof {
            assert(next.drop_last() =~= seen);
            assert(next.last() == h@[i as int]);
            assert(h@.take(h@.len() as int) =~= h@);
            text::lemma_byte_len_prefix(h@, i + 1, h@.len() as int);
            assert(ints(out@).len() == leftmost(seen, n@).len());
        }
        if out.len() < n.len() && fold_case(h[i]) == fold_case(n[out.len()]) {
            let ghost before = out@;
            out.push(off);
            proof {
                assert(leftmost(next, n@) == leftmost(seen, n@).push(i as int));
                assert forall|k: int| 0 <= k < out@.len() implies ints(out@)[k] == offsets(
                    h@,
                    leftmost(next, n@),
                )[k] by {
                    if k < before.len() {
                        assert(ints(before)[k] == offsets(h@, leftmost(seen, n@))[k]);
                    }
                }
                assert(ints(out@) =~= offsets(h@, leftmost(next, n@)));
            }
        }
        off += width_of(h[i]);
        i += 1;
    }
    proof {
        assert(h@.take(h@.len() as int) =~= h@);
        assert(ints(out@).len() == leftmost(h@, n@).len());
    }
    if out.len() == n.len() {
        Some(out)
    } else {
        None
    }
}

} // verus!
