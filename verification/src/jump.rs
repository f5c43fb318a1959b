//! Fuzzy "jump to" overlay: a finder that moves the list cursor to a task
//! (matched by its text) or to a folder (matched by its name).
use crate::order;
use crate::order::listing;
use crate::search;
use crate::search::subseq_match_ci;
use crate::text;
use crate::text::bytes_in;
use crate::types::Mode;
use vstd::prelude::*;

verus! {

/// One jump target built from the current visible list.
#[derive(Debug, Clone)]
pub struct JumpCandidate {
    /// Index into the visible list to move the cursor to.
    pub target: usize,
    /// Shown text: a task's body, or `area/` for a folder row.
    pub label: String,
    /// Source area (directory), shown dimmed and folded into the match text;
    /// empty in single-file mode and for folder rows themselves.
    pub area: String,
    pub is_area: bool,
}

/// A candidate that passed the current filter, with the byte offsets in its
/// `label` that matched (for highlighting).
#[derive(Debug, Clone)]
pub struct JumpHit {
    pub cand: usize,
    pub positions: Vec<usize>,
}

#[derive(Debug)]
pub struct JumpState {
    prior: Mode,
    /// Highlighted row in the filtered list.
    pub cursor: usize,
    candidates: Vec<JumpCandidate>,
    hits: Vec<JumpHit>,
}

/// What a [`JumpState`] holds.
pub struct JumpView {
    pub prior: Mode,
    pub cursor: usize,
    pub candidates: Seq<JumpCandidate>,
    pub hits: Seq<JumpHit>,
}

/// The text that a query is matched against: the area, when there is one, and
/// the label.
pub open spec fn haystack(c: JumpCandidate) -> Seq<char> {
    if c.area@.len() == 0 {
        c.label@
    } else {
        c.area@.push(' ') + c.label@
    }
}

/// Whether a candidate passes the query.
pub open spec fn passes(c: JumpCandidate, needle: Seq<char>) -> bool {
    search::subseq_positions(haystack(c), needle) is Some
}

/// Distance in bytes from the first matched character to the last.
pub open spec fn span(c: JumpCandidate, needle: Seq<char>) -> int {
    let pos = search::subseq_positions(haystack(c), needle)->0;
    pos.last() - pos.first()
}

/// How good a match is: the tighter span first, then the shorter label.
pub open spec fn rank(c: JumpCandidate, needle: Seq<char>) -> (usize, usize) {
    if passes(c, needle) {
        (span(c, needle) as usize, text::byte_len(c.label@) as usize)
    } else {
        (0, 0)
    }
}

pub open spec fn passing(cands: Seq<JumpCandidate>, needle: Seq<char>) -> Seq<bool> {
    Seq::new(cands.len(), |i: int| passes(cands[i], needle))
}

pub open spec fn ranks(cands: Seq<JumpCandidate>, needle: Seq<char>) -> Seq<(usize, usize)> {
    Seq::new(cands.len(), |i: int| rank(cands[i], needle))
}

/// Candidate indices of a list of hits.
pub open spec fn hit_cands(hits: Seq<JumpHit>) -> Seq<usize> {
    Seq::new(hits.len(), |p: int| hits[p].cand)
}

/// Offsets to highlight: the match against the label alone, nothing when the
/// label by itself does not match.
pub open spec fn highlights(label: Seq<char>, needle: Seq<char>) -> Seq<int> {
    match search::subseq_positions(label, needle) {
        Some(pos) => pos,
        None => Seq::empty(),
    }
}

/// `hits` answers the query `needle`. An empty query keeps every candidate in
/// order. Any other keeps the candidates that pass, the best first and equally
/// good ones in their own order.
pub open spec fn answers(hits: Seq<JumpHit>, cands: Seq<JumpCandidate>, needle: Seq<char>) -> bool {
    if needle.len() == 0 {
        &&& hits.len() == cands.len()
        &&& forall|i: int|
            0 <= i < hits.len() ==> (#[trigger] hits[i]).cand == i && hits[i].positions@.len() == 0
    } else {
        &&& order::is_listing(hit_cands(hits), passing(cands, needle), ranks(cands, needle))
        &&& forall|p: int|
            0 <= p < hits.len() ==> search::ints((#[trigger] hits[p]).positions@) == highlights(
                cands[hits[p].cand as int].label@,
                needle,
            )
    }
}

/// A hit names one of the candidates and highlights characters of its label.
pub open spec fn points_into(hit: JumpHit, cands: Seq<JumpCandidate>) -> bool {
    &&& hit.cand < cands.len()
    &&& search::on_characters(cands[hit.cand as int].label@, search::ints(hit.positions@))
}

/// The row `dir` rows away among `rows`, wrapping at both ends.
pub open spec fn stepped(cursor: int, dir: int, rows: int) -> int {
    if rows == 0 {
        cursor
    } else {
        (cursor + dir) % rows
    }
}

impl vstd::prelude::View for JumpState {
    type V = JumpView;

    closed spec fn view(&self) -> JumpView {
        JumpView {
            prior: self.prior,
            cursor: self.cursor,
            candidates: self.candidates@,
            hits: self.hits@,
        }
    }
}

impl Default for JumpState {
    fn default() -> (r: Self)
        ensures
            r.wf(),
            r@ == (JumpView {
                prior: Mode::Normal,
                cursor: 0,
                candidates: Seq::empty(),
                hits: Seq::empty(),
            }),
    {
        JumpState {
            prior: Mode::Normal,
            cursor: 0,
            candidates: Vec::new(),
            hits: Vec::new(),
        }
    }
}

impl JumpState {
    /// Every hit names a candidate and highlights characters of its label.
    pub open spec fn wf(&self) -> bool {
        forall|p: int|
            0 <= p < self@.hits.len() ==> points_into(
                #[trigger] self@.hits[p],
                self@.candidates,
            )
    }

    /// Start a query over new candidates; `prior` is the mode to go back to.
    pub fn open(&mut self, prior: Mode, candidates: Vec<JumpCandidate>)
        ensures
            final(self).wf(),
            final(self)@.cursor == 0,
            final(self)@.prior == prior,
            final(self)@.candidates == candidates@,
            answers(final(self)@.hits, candidates@, Seq::empty()),
    {
        self.prior = prior;
        self.cursor = 0;
        self.candidates = candidates;
        proof {
            reveal_strlit("");
            assert(""@ =~= Seq::<char>::empty());
        }
        self.hits = self.compute("");
    }

    fn compute(&self, needle: &str) -> (hits: Vec<JumpHit>)
        ensures
            answers(hits@, self@.candidates, needle@),
            forall|p: int|
                0 <= p < hits@.len() ==> points_into(#[trigger] hits@[p], self@.candidates),
    {
        let mut hits: Vec<JumpHit> = Vec::new();
        if needle.is_empty() {
            let mut i: usize = 0;
            while i < self.candidates.len()
                invariant
                    i <= self.candidates.len(),
                    hits@.len() == i,
                    forall|k: int|
                        0 <= k < i ==> (#[trigger] hits@[k]).cand == k
                            && hits@[k].positions@.len() == 0,
                decreases self.candidates.len() - i,
            {
                hits.push(JumpHit { cand: i, positions: Vec::new() });
                i += 1;
            }
            return hits;
        }
        let mut keep: Vec<bool> = Vec::new();
        let mut keys: Vec<(usize, usize)> = Vec::new();
        let mut i: usize = 0;
        while i < self.candidates.len()
            invariant
                needle@.len() > 0,
                i <= self.candidates.len(),
                keep@ == passing(self.candidates@.take(i as int), needle@),
                keys@ == ranks(self.candidates@.take(i as int), needle@),
            decreases self.candidates.len() - i,
        {
            let ghost c = self.candidates@[i as int];
            let score: Option<(usize, usize)> = Self::score(&self.candidates[i], needle);
            match score {
                Some(key) => {
                    keep.push(true);
                    keys.push(key);
                },
                None => {
                    keep.push(false);
                    keys.push((0, 0));
                },
            }
            proof {
                assert(self.candidates@.take(i + 1) =~= self.candidates@.take(i as int).push(c));
                assert(keep@ =~= passing(self.candidates@.take(i + 1), needle@));
                assert(keys@ =~= ranks(self.candidates@.take(i + 1), needle@));
            }
            i += 1;
        }
        proof {
            assert(self.candidates@.take(self.candidates@.len() as int) =~= self.candidates@);
        }
        let order: Vec<usize> = listing(&keep, &keys);
        let mut p: usize = 0;
        while p < order.len()
            invariant
                p <= order.len(),
                hits@.len() == p,
                forall|k: int|
                    0 <= k < order@.len() ==> (#[trigger] order@[k]) < self.candidates@.len(),
                forall|k: int|
                    0 <= k < p ==> (#[trigger] hits@[k]).cand == order@[k] && search::ints(
                        hits@[k].positions@,
                    ) == highlights(self.candidates@[hits@[k].cand as int].label@, needle@),
                forall|k: int|
                    0 <= k < p ==> points_into(#[trigger] hits@[k], self.candidates@),
            decreases order.len() - p,
        {
            let cand: usize = order[p];
            let found: Option<Vec<usize>> = subseq_match_ci(
                self.candidates[cand].label.as_str(),
                needle,
            );
            let positions: Vec<usize> = match found {
                Some(v) => v,
                None => Vec::new(),
            };
            proof {
                search::match_positions_are_characters(
                    self.candidates@[cand as int].label@,
                    needle@,
                );
                if found is None {
                    assert(search::ints(positions@) =~= Seq::<int>::empty());
                }
            }
            hits.push(JumpHit { cand, positions });
            p += 1;
        }
        proof {
            assert(hit_cands(hits@) =~= order@);
        }
        hits
    }

    /// The sort key of a candidate that matches; `None` when it does not.
    fn score(c: &JumpCandidate, needle: &str) -> (r: Option<(usize, usize)>)
        requires
            needle@.len() > 0,
        ensures
            r is Some == passes(*c, needle@),
            r matches Some(key) ==> key == rank(*c, needle@),
    {
        let hay: String = if c.area.as_str().is_empty() {
            c.label.clone()
        } else {
            let mut joined: String = c.area.clone();
            joined.push(' ');
            joined.append(c.label.as_str());
            joined
        };
        match subseq_match_ci(hay.as_str(), needle) {
            Some(pos) => {
                proof {
                    search::match_positions_ascend(hay@, needle@);
                    let all = search::subseq_positions(hay@, needle@)->0;
                    assert(all == search::ints(pos@));
                    assert(all.len() == needle@.len());
                    let n = pos@.len() as int;
                    assert(all[0] == pos@[0] && all[n - 1] == pos@[n - 1]);
                }
                let first: usize = pos[0];
                let last: usize = pos[pos.len() - 1];
                Some((last - first, bytes_in(c.label.as_str())))
            },
            None => None,
        }
    }

    /// The mode to go back to.
    pub fn take_prior(&mut self) -> (r: Mode)
        ensures
            r == old(self)@.prior,
            *final(self) == *old(self),
    {
        self.prior
    }

    pub fn prior_mode(&self) -> (r: Mode)
        ensures
            r == self@.prior,
    {
        self.prior
    }

    /// Answer a new query and highlight its first hit.
    pub fn refresh(&mut self, needle: &str)
        ensures
            final(self).wf(),
            final(self)@.cursor == 0,
            final(self)@.prior == old(self)@.prior,
            final(self)@.candidates == old(self)@.candidates,
            answers(final(self)@.hits, old(self)@.candidates, needle@),
    {
        self.hits = self.compute(needle);
        self.cursor = 0;
    }

    pub fn hits(&self) -> (r: &[JumpHit])
        ensures
            r@ == self@.hits,
    {
        self.hits.as_slice()
    }

    /// The highlighted row.
    pub fn cursor(&self) -> (r: usize)
        ensures
            r == self@.cursor,
    {
        self.cursor
    }

    /// Highlight a row; one past the last hit highlights nothing.
    pub fn set_cursor(&mut self, cursor: usize)
        ensures
            final(self)@ == (JumpView { cursor, ..old(self)@ }),
            old(self).wf() ==> final(self).wf(),
    {
        self.cursor = cursor;
    }

    pub fn candidate(&self, cand: usize) -> (r: &JumpCandidate)
        requires
            cand < self@.candidates.len(),
        ensures
            *r == self@.candidates[cand as int],
    {
        &self.candidates[cand]
    }

    /// Move the highlight by `dir` rows, wrapping at both ends.
    pub fn step(&mut self, dir: i32)
        requires
            old(self).wf(),
        ensures
            final(self).wf(),
            final(self)@ == (JumpView { cursor: final(self)@.cursor, ..old(self)@ }),
            final(self)@.cursor == stepped(
                old(self)@.cursor as int,
                dir as int,
                old(self)@.hits.len() as int,
            ),
    {
        if self.hits.is_empty() {
            return;
        }
        let len: i128 = self.hits.len() as i128;
        let at: i128 = self.cursor as i128 + dir as i128;
        let wrapped: i128 = if at >= 0 {
            at % len
        } else {
            let back: i128 = (-at) % len;
            if back == 0 {
                0
            } else {
                len - back
            }
        };
        proof {
            let l = len as int;
            let a = at as int;
            if a < 0 {
                let q = (-a) / l;
                let b = (-a) % l;
                vstd::arithmetic::div_mod::lemma_fundamental_div_mod(-a, l);
                if b == 0 {
                    assert(a == l * (-q)) by (nonlinear_arith)
                        requires
                            -a == l * q + b,
                            b == 0,
                    ;
                    vstd::arithmetic::div_mod::lemma_fundamental_div_mod_converse(a, l, -q, 0);
                } else {
                    assert(a == l * (-q - 1) + (l - b)) by (nonlinear_arith)
                        requires
                            -a == l * q + b,
                    ;
                    vstd::arithmetic::div_mod::lemma_fundamental_div_mod_converse(
                        a,
                        l,
                        -q - 1,
                        l - b,
                    );
                }
            }
        }
        self.cursor = wrapped as usize;
    }

    /// The visible-list index the current selection points at.
    pub fn current_target(&self) -> (r: Option<usize>)
        requires
            self.wf(),
        ensures
            r == (if self@.cursor < self@.hits.len() {
                Some(self@.candidates[self@.hits[self@.cursor as int].cand as int].target)
            } else {
                None
            }),
    {
        if self.cursor < self.hits.len() {
            let cand: usize = self.hits[self.cursor].cand;
            Some(self.candidates[cand].target)
        } else {
            None
        }
    }
}

/// A query lists a candidate exactly when the characters of the query occur,
/// in order and letter case aside, in its area and label.
pub proof fn query_lists_exactly_the_matches(
    hits: Seq<JumpHit>,
    cands: Seq<JumpCandidate>,
    needle: Seq<char>,
    i: int,
)
    requires
        answers(hits, cands, needle),
        0 <= i < cands.len(),
    ensures
        (exists|p: int| 0 <= p < hits.len() && (#[trigger] hits[p]).cand == i) <==> exists|
            at: Seq<int>,
        |
            search::embeds(haystack(cands[i]), needle, at),
{
    search::match_iff_subsequence(haystack(cands[i]), needle);
    if needle.len() == 0 {
        assert(hits[i].cand == i);
        assert(search::embeds(haystack(cands[i]), needle, Seq::empty()));
    } else {
        let listed = hit_cands(hits);
        if passes(cands[i], needle) {
            assert(passing(cands, needle)[i]);
            let p = choose|p: int| 0 <= p < listed.len() && listed[p] == i;
            assert(hits[p].cand == i);
        }
        if exists|p: int| 0 <= p < hits.len() && (#[trigger] hits[p]).cand == i {
            let p = choose|p: int| 0 <= p < hits.len() && (#[trigger] hits[p]).cand == i;
            assert(listed[p] == i);
            assert(passing(cands, needle)[listed[p] as int]);
        }
    }
}

/// Of two hits the one listed first packs the query at least as tightly and,
/// where the spans are equal, has a label that is no longer.
pub proof fn tighter_matches_come_first(
    hits: Seq<JumpHit>,
    cands: Seq<JumpCandidate>,
    needle: Seq<char>,
    p: int,
    q: int,
)
    requires
        answers(hits, cands, needle),
        needle.len() > 0,
        0 <= p < q < hits.len(),
        forall|i: int| 0 <= i < cands.len() ==> text::byte_len(#[trigger] cands[i].label@) <= usize::MAX,
        forall|i: int|
            0 <= i < cands.len() ==> text::byte_len(haystack(#[trigger] cands[i])) <= usize::MAX,
    ensures
        ({
            let a = cands[hits[p].cand as int];
            let b = cands[hits[q].cand as int];
            ||| span(a, needle) < span(b, needle)
            ||| span(a, needle) == span(b, needle) && text::byte_len(a.label@) <= text::byte_len(
                b.label@,
            )
        }),
{
    let listed = hit_cands(hits);
    assert(order::ahead(ranks(cands, needle), listed[p] as int, listed[q] as int));
    assert(passing(cands, needle)[listed[p] as int]);
    assert(passing(cands, needle)[listed[q] as int]);
    search::match_positions_ascend(haystack(cands[listed[p] as int]), needle);
    search::match_positions_ascend(haystack(cands[listed[q] as int]), needle);
    lemma_span_bounds(cands[listed[p] as int], needle);
    lemma_span_bounds(cands[listed[q] as int], needle);
}

/// A span is no longer than the searched text.
pub proof fn lemma_span_bounds(c: JumpCandidate, needle: Seq<char>)
    requires
        passes(c, needle),
        needle.len() > 0,
    ensures
        0 <= span(c, needle) <= text::byte_len(haystack(c)),
{
    search::match_positions_ascend(haystack(c), needle);
    let pos = search::subseq_positions(haystack(c), needle)->0;
    let n = pos.len() as int;
    assert(n == needle.len());
    assert(0 <= pos[0] && pos[n - 1] < text::byte_len(haystack(c)));
    assert(pos[0] <= pos[n - 1]);
}

/// The candidates and the query leave no choice: two answers list the same
/// candidates in the same order with the same highlights.
pub proof fn answer_is_unique(
    a: Seq<JumpHit>,
    b: Seq<JumpHit>,
    cands: Seq<JumpCandidate>,
    needle: Seq<char>,
)
    requires
        answers(a, cands, needle),
        answers(b, cands, needle),
    ensures
        a.len() == b.len(),
        forall|p: int|
            0 <= p < a.len() ==> (#[trigger] a[p]).cand == b[p].cand && a[p].positions@
                == b[p].positions@,
{
    if needle.len() == 0 {
        assert forall|p: int| 0 <= p < a.len() implies (#[trigger] a[p]).cand == b[p].cand
            && a[p].positions@ == b[p].positions@ by {
            assert(b[p].cand == p);
            assert(a[p].positions@ =~= b[p].positions@);
        }
    } else {
        order::listing_is_unique(
            hit_cands(a),
            hit_cands(b),
            passing(cands, needle),
            ranks(cands, needle),
        );
        assert(hit_cands(a).len() == hit_cands(b).len());
        assert forall|p: int| 0 <= p < a.len() implies (#[trigger] a[p]).cand == b[p].cand
            && a[p].positions@ == b[p].positions@ by {
            assert(hit_cands(a)[p] == hit_cands(b)[p]);
            assert(b[p].cand == hit_cands(b)[p]);
            let x = search::ints(a[p].positions@);
            let y = search::ints(b[p].positions@);
            assert(x == y);
            assert forall|k: int| 0 <= k < a[p].positions@.len() implies a[p].positions@[k]
                == b[p].positions@[k] by {
                assert(x[k] == y[k]);
            }
            assert(x.len() == y.len());
            assert(a[p].positions@ =~= b[p].positions@);
        }
    }
}

/// Stepping one way and back returns to the same row.
pub proof fn step_back_undoes_step(cursor: int, dir: int, len: int)
    requires
        0 <= cursor < len,
    ensures
        0 <= stepped(cursor, dir, len) < len,
        stepped(stepped(cursor, dir, len), -dir, len) == cursor,
{
    vstd::arithmetic::div_mod::lemma_fundamental_div_mod(cursor + dir, len);
    let q = (cursor + dir) / len;
    let m = (cursor + dir) % len;
    assert(m - dir == len * (-q) + cursor) by (nonlinear_arith)
        requires
            cursor + dir == len * q + m,
    ;
    vstd::arithmetic::div_mod::lemma_fundamental_div_mod_converse(m - dir, len, -q, cursor);
}

/// A step goes to the next row or the one before; from the last row it goes to
/// the first, and from the first to the last. Without rows nothing moves.
pub proof fn steps_wrap_at_the_ends(cursor: int, len: int)
    requires
        0 <= cursor < len,
    ensures
        cursor + 1 < len ==> stepped(cursor, 1, len) == cursor + 1,
        stepped(len - 1, 1, len) == 0,
        cursor > 0 ==> stepped(cursor, -1, len) == cursor - 1,
        stepped(0, -1, len) == len - 1,
        stepped(cursor, 0, len) == cursor,
        stepped(cursor, 1, 0) == cursor,
{
    if cursor + 1 < len {
        vstd::arithmetic::div_mod::lemma_small_mod((cursor + 1) as nat, len as nat);
    }
    if cursor > 0 {
        vstd::arithmetic::div_mod::lemma_small_mod((cursor - 1) as nat, len as nat);
    }
    vstd::arithmetic::div_mod::lemma_small_mod(cursor as nat, len as nat);
    vstd::arithmetic::div_mod::lemma_fundamental_div_mod_converse(len, len, 1, 0);
    vstd::arithmetic::div_mod::lemma_fundamental_div_mod_converse(-1, len, -1, len - 1);
}

/// Two steps are one as far as both together.
pub proof fn steps_add_up(cursor: int, a: int, b: int, len: int)
    requires
        0 <= cursor < len,
    ensures
        stepped(stepped(cursor, a, len), b, len) == stepped(cursor, a + b, len),
{
    vstd::arithmetic::div_mod::lemma_add_mod_noop(cursor + a, b, len);
    vstd::arithmetic::div_mod::lemma_add_mod_noop(stepped(cursor, a, len), b, len);
    vstd::arithmetic::div_mod::lemma_mod_twice(cursor + a, len);
    assert((cursor + a) + b == cursor + (a + b));
}

} // verus!
