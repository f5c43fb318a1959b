//! What holds of the jump panel.
use crate::date;
use crate::jump::{JumpCandidate, JumpView};
use crate::panel;
use crate::panel::{Area, Role, SegmentView, Tone};
use crate::search;
use crate::text;
use vstd::prelude::*;

verus! {

/// The text of segments, one after the other.
pub open spec fn text_of(s: Seq<SegmentView>) -> Seq<char>
    decreases s.len(),
{
    if s.len() == 0 {
        Seq::empty()
    } else {
        s[0].text + text_of(s.drop_first())
    }
}

/// For each character of segments, whether it is drawn in a tone.
pub open spec fn drawn_in(s: Seq<SegmentView>, tone: Tone) -> Seq<bool>
    decreases s.len(),
{
    if s.len() == 0 {
        Seq::empty()
    } else {
        Seq::new(s[0].text.len(), |i: int| s[0].tone == tone) + drawn_in(s.drop_first(), tone)
    }
}

proof fn lemma_text_of_sum(a: Seq<SegmentView>, b: Seq<SegmentView>)
    ensures
        text_of(a + b) == text_of(a) + text_of(b),
    decreases a.len(),
{
    if a.len() == 0 {
        assert(a + b =~= b);
        assert(text_of(a) + text_of(b) =~= text_of(b));
    } else {
        lemma_text_of_sum(a.drop_first(), b);
        assert((a + b).drop_first() =~= a.drop_first() + b);
        assert(a[0].text + (text_of(a.drop_first()) + text_of(b)) =~= a[0].text + text_of(
            a.drop_first(),
        ) + text_of(b));
    }
}

proof fn lemma_text_of_one(s: SegmentView)
    ensures
        text_of(seq![s]) == s.text,
{
    assert(seq![s].drop_first() =~= Seq::<SegmentView>::empty());
    assert(text_of(seq![s].drop_first()) =~= Seq::<char>::empty());
    assert(s.text + Seq::<char>::empty() =~= s.text);
}

proof fn lemma_drawn_in_sum(a: Seq<SegmentView>, b: Seq<SegmentView>, tone: Tone)
    ensures
        drawn_in(a + b, tone) == drawn_in(a, tone) + drawn_in(b, tone),
    decreases a.len(),
{
    if a.len() == 0 {
        assert(a + b =~= b);
        assert(drawn_in(a, tone) + drawn_in(b, tone) =~= drawn_in(b, tone));
    } else {
        lemma_drawn_in_sum(a.drop_first(), b, tone);
        assert((a + b).drop_first() =~= a.drop_first() + b);
        let head = Seq::new(a[0].text.len(), |i: int| a[0].tone == tone);
        assert((a + b)[0] == a[0]);
        assert(head + (drawn_in(a.drop_first(), tone) + drawn_in(b, tone)) =~= head + drawn_in(
            a.drop_first(),
            tone,
        ) + drawn_in(b, tone));
    }
}

proof fn lemma_drawn_in_one(s: SegmentView, tone: Tone)
    ensures
        drawn_in(seq![s], tone) == Seq::new(s.text.len(), |i: int| s.tone == tone),
{
    assert(seq![s].drop_first() =~= Seq::<SegmentView>::empty());
    assert(drawn_in(seq![s].drop_first(), tone) =~= Seq::<bool>::empty());
    assert(drawn_in(seq![s], tone) =~= Seq::new(s.text.len(), |i: int| s.tone == tone));
}

/// Nothing that the first `k` offsets name reaches past the character `cur`.
spec fn all_before(label: Seq<char>, positions: Seq<int>, k: int, cur: int) -> bool {
    forall|j: int, i: int|
        0 <= j < k && 0 <= i < label.len() && #[trigger] positions[j] == text::byte_len(
            #[trigger] label.take(i),
        ) ==> i < cur
}

proof fn lemma_character_at(label: Seq<char>, positions: Seq<int>, k: int, cur: int)
    requires
        search::can_be_cut(label, positions),
        0 <= k < positions.len(),
        0 <= cur <= label.len(),
        all_before(label, positions, k, cur),
        text::byte_len(label.take(cur)) <= positions[k] < text::byte_len(label),
    ensures
        cur <= panel::character_at(label, positions[k]) < label.len(),
        text::byte_len(label.take(panel::character_at(label, positions[k]))) == positions[k],
{
    if !search::begins_character(label, positions[k]) {
        let j = choose|j: int|
            0 <= j < k && search::reaches_past(label, #[trigger] positions[j], positions[k]);
        let i = choose|i: int|
            0 <= i < label.len() && text::byte_len(#[trigger] label.take(i)) == positions[j]
                && positions[k] < text::byte_len(label.take(i + 1));
        assert(i < cur);
        text::lemma_byte_len_prefix(label, i + 1, cur);
    }
    let i = choose|i: int|
        0 <= i < label.len() && text::byte_len(#[trigger] label.take(i)) == positions[k];
    assert(text::byte_len(label.take(i)) == positions[k]);
    let at = panel::character_at(label, positions[k]);
    if at < cur {
        text::lemma_byte_len_prefix(label, at, cur);
    }
}

proof fn lemma_skipped(label: Seq<char>, positions: Seq<int>, k: int, cur: int)
    requires
        0 <= k < positions.len(),
        0 <= cur <= label.len(),
        all_before(label, positions, k, cur),
        positions[k] < text::byte_len(label.take(cur)) || positions[k] >= text::byte_len(label),
    ensures
        all_before(label, positions, k + 1, cur),
{
    assert forall|j: int, i: int|
        0 <= j < k + 1 && 0 <= i < label.len() && #[trigger] positions[j] == text::byte_len(
            #[trigger] label.take(i),
        ) implies i < cur by {
        if j == k {
            assert(label.take(label.len() as int) =~= label);
            text::lemma_byte_len_prefix(label, i, label.len() as int);
            if cur <= i {
                text::lemma_byte_len_prefix(label, cur, i);
            }
        }
    }
}

proof fn lemma_accepted(label: Seq<char>, positions: Seq<int>, k: int, cur: int, at: int)
    requires
        0 <= k < positions.len(),
        0 <= cur <= at < label.len(),
        all_before(label, positions, k, cur),
        positions[k] == text::byte_len(label.take(at)),
    ensures
        all_before(label, positions, k + 1, at + 1),
{
    assert forall|j: int, i: int|
        0 <= j < k + 1 && 0 <= i < label.len() && #[trigger] positions[j] == text::byte_len(
            #[trigger] label.take(i),
        ) implies i < at + 1 by {
        if j == k && at < i {
            text::lemma_byte_len_prefix(label, at, i);
        }
    }
}

proof fn lemma_shown_from(
    label: Seq<char>,
    positions: Seq<int>,
    k: int,
    cur: int,
    base: Tone,
    hit: Tone,
)
    requires
        search::can_be_cut(label, positions),
        0 <= k <= positions.len(),
        0 <= cur <= label.len(),
        all_before(label, positions, k, cur),
    ensures
        text_of(panel::label_runs(label, positions, k, cur, base, hit)) == label.skip(cur),
    decreases positions.len() - k,
{
    if k >= positions.len() {
        if cur < label.len() {
            lemma_text_of_one(SegmentView { text: label.skip(cur), tone: base });
        } else {
            assert(label.skip(cur) =~= Seq::<char>::empty());
        }
    } else if positions[k] < text::byte_len(label.take(cur)) || positions[k] >= text::byte_len(
        label,
    ) {
        lemma_skipped(label, positions, k, cur);
        lemma_shown_from(label, positions, k + 1, cur, base, hit);
    } else {
        lemma_character_at(label, positions, k, cur);
        let at = panel::character_at(label, positions[k]);
        lemma_accepted(label, positions, k, cur, at);
        let between = if cur < at {
            seq![SegmentView { text: label.subrange(cur, at), tone: base }]
        } else {
            Seq::empty()
        };
        let one = SegmentView { text: seq![label[at]], tone: hit };
        let rest = panel::label_runs(label, positions, k + 1, at + 1, base, hit);
        lemma_shown_from(label, positions, k + 1, at + 1, base, hit);
        lemma_text_of_sum(between + seq![one], rest);
        lemma_text_of_sum(between, seq![one]);
        lemma_text_of_one(one);
        if cur < at {
            lemma_text_of_one(between[0]);
        }
        assert(text_of(between) =~= label.subrange(cur, at));
        assert(label.subrange(cur, at) + seq![label[at]] + label.skip(at + 1) =~= label.skip(cur));
    }
}

/// However a label is cut for its matches, all of it is shown, in order.
pub proof fn label_is_shown_whole(label: Seq<char>, positions: Seq<int>, base: Tone, hit: Tone)
    requires
        search::can_be_cut(label, positions),
    ensures
        text_of(panel::label_runs(label, positions, 0, 0, base, hit)) == label,
{
    lemma_shown_from(label, positions, 0, 0, base, hit);
    assert(label.skip(0) =~= label);
}

/// A row says its mark, the area of a task that has one, and the label.
pub proof fn row_says_its_label(cand: JumpCandidate, positions: Seq<int>, selected: bool)
    requires
        !cand.is_area ==> search::can_be_cut(cand.label@, positions),
    ensures
        text_of(panel::row_line(cand, positions, selected).segments) == (if selected {
            " ▶ "@
        } else {
            "   "@
        }) + (if cand.is_area || cand.area@.len() == 0 {
            Seq::empty()
        } else {
            cand.area@ + "/ "@
        }) + cand.label@,
{
    let mark = panel::row_mark(selected);
    let all = panel::row_line(cand, positions, selected).segments;
    lemma_text_of_one(mark);
    if cand.is_area {
        let name = all[1];
        assert(all =~= seq![mark] + seq![name]);
        lemma_text_of_sum(seq![mark], seq![name]);
        lemma_text_of_one(name);
        assert(mark.text + Seq::<char>::empty() =~= mark.text);
    } else {
        let runs = panel::label_runs(
            cand.label@,
            positions,
            0,
            0,
            panel::label_tone(selected),
            panel::match_tone(),
        );
        label_is_shown_whole(
            cand.label@,
            positions,
            panel::label_tone(selected),
            panel::match_tone(),
        );
        if cand.area@.len() == 0 {
            assert(all =~= seq![mark] + runs);
            lemma_text_of_sum(seq![mark], runs);
            assert(mark.text + Seq::<char>::empty() =~= mark.text);
        } else {
            let area = all[1];
            assert(all =~= seq![mark] + seq![area] + runs);
            lemma_text_of_sum(seq![mark] + seq![area], runs);
            lemma_text_of_sum(seq![mark], seq![area]);
            lemma_text_of_one(area);
        }
    }
}

/// Of the offsets from the `k`th on, one is that of the character `i`, and those
/// before it that lie within the label are smaller.
pub open spec fn is_matched(label: Seq<char>, positions: Seq<int>, k: int, i: int) -> bool {
    exists|m: int|
        k <= m < positions.len() && #[trigger] positions[m] == text::byte_len(label.take(i))
            && goes_up_to(label, positions, k, m)
}

/// The offsets from the `k`th on, up to the `m`th, that lie within the label are
/// smaller than the `m`th.
pub open spec fn goes_up_to(label: Seq<char>, positions: Seq<int>, k: int, m: int) -> bool {
    forall|j: int|
        k <= j < m ==> #[trigger] positions[j] < positions[m] || positions[j] >= text::byte_len(
            label,
        )
}

proof fn lemma_matched_later(label: Seq<char>, positions: Seq<int>, k: int, i: int)
    requires
        0 <= k < positions.len(),
        positions[k] != text::byte_len(label.take(i)),
        positions[k] < text::byte_len(label.take(i)) || positions[k] >= text::byte_len(label),
    ensures
        is_matched(label, positions, k, i) == is_matched(label, positions, k + 1, i),
{
    if is_matched(label, positions, k, i) {
        let m = choose|m: int|
            k <= m < positions.len() && #[trigger] positions[m] == text::byte_len(label.take(i))
                && goes_up_to(label, positions, k, m);
        assert(goes_up_to(label, positions, k + 1, m));
    }
    if is_matched(label, positions, k + 1, i) {
        let m = choose|m: int|
            k + 1 <= m < positions.len() && #[trigger] positions[m] == text::byte_len(
                label.take(i),
            ) && goes_up_to(label, positions, k + 1, m);
        assert(goes_up_to(label, positions, k, m));
    }
}

proof fn lemma_matches_after(
    label: Seq<char>,
    positions: Seq<int>,
    k: int,
    cur: int,
    base: Tone,
    hit: Tone,
)
    requires
        base != hit,
        search::can_be_cut(label, positions),
        0 <= k <= positions.len(),
        0 <= cur <= label.len(),
        all_before(label, positions, k, cur),
    ensures
        drawn_in(panel::label_runs(label, positions, k, cur, base, hit), hit) == Seq::new(
            (label.len() - cur) as nat,
            |i: int| is_matched(label, positions, k, cur + i),
        ),
    decreases positions.len() - k,
{
    let want = Seq::new(
        (label.len() - cur) as nat,
        |i: int| is_matched(label, positions, k, cur + i),
    );
    let runs = panel::label_runs(label, positions, k, cur, base, hit);
    if k >= positions.len() {
        if cur < label.len() {
            lemma_drawn_in_one(SegmentView { text: label.skip(cur), tone: base }, hit);
        }
        assert(drawn_in(runs, hit) =~= want);
    } else if positions[k] < text::byte_len(label.take(cur)) || positions[k] >= text::byte_len(
        label,
    ) {
        lemma_skipped(label, positions, k, cur);
        lemma_matches_after(label, positions, k + 1, cur, base, hit);
        assert forall|i: int| cur <= i < label.len() implies is_matched(label, positions, k, i)
            == is_matched(label, positions, k + 1, i) by {
            text::lemma_byte_len_prefix(label, cur, i);
            text::lemma_byte_len_prefix(label, i, label.len() as int);
            assert(label.take(label.len() as int) =~= label);
            lemma_matched_later(label, positions, k, i);
        }
        assert(drawn_in(runs, hit) =~= want);
    } else {
        lemma_character_at(label, positions, k, cur);
        let at = panel::character_at(label, positions[k]);
        lemma_accepted(label, positions, k, cur, at);
        let between = if cur < at {
            seq![SegmentView { text: label.subrange(cur, at), tone: base }]
        } else {
            Seq::empty()
        };
        let one = SegmentView { text: seq![label[at]], tone: hit };
        let rest = panel::label_runs(label, positions, k + 1, at + 1, base, hit);
        lemma_matches_after(label, positions, k + 1, at + 1, base, hit);
        lemma_drawn_in_sum(between + seq![one], rest, hit);
        lemma_drawn_in_sum(between, seq![one], hit);
        lemma_drawn_in_one(one, hit);
        if cur < at {
            lemma_drawn_in_one(between[0], hit);
        }
        assert(drawn_in(between, hit).len() == at - cur);
        assert(positions[k] == text::byte_len(label.take(at)));
        assert(goes_up_to(label, positions, k, k));
        assert(is_matched(label, positions, k, at));
        assert forall|i: int| cur <= i < at implies !is_matched(label, positions, k, i) by {
            text::lemma_byte_len_prefix(label, i, at);
            if is_matched(label, positions, k, i) {
                let m = choose|m: int|
                    k <= m < positions.len() && #[trigger] positions[m] == text::byte_len(
                        label.take(i),
                    ) && goes_up_to(label, positions, k, m);
                assert(positions[k] < positions[m] || positions[k] >= text::byte_len(label));
            }
        }
        assert forall|i: int| at < i < label.len() implies is_matched(label, positions, k, i)
            == is_matched(label, positions, k + 1, i) by {
            text::lemma_byte_len_prefix(label, at, i);
            lemma_matched_later(label, positions, k, i);
        }
        assert(drawn_in(runs, hit) =~= want);
    }
}

/// A character of a label is highlighted exactly when an offset names it that
/// is larger than every offset before it within the label.
pub proof fn highlights_follow_the_offsets(
    label: Seq<char>,
    positions: Seq<int>,
    selected: bool,
    i: int,
)
    requires
        search::can_be_cut(label, positions),
        0 <= i < label.len(),
    ensures
        ({
            let runs = panel::label_runs(
                label,
                positions,
                0,
                0,
                panel::label_tone(selected),
                panel::match_tone(),
            );
            &&& drawn_in(runs, panel::match_tone()).len() == label.len()
            &&& drawn_in(runs, panel::match_tone())[i] <==> is_matched(label, positions, 0, i)
        }),
{
    lemma_matches_after(
        label,
        positions,
        0,
        0,
        panel::label_tone(selected),
        panel::match_tone(),
    );
}

/// Exactly the characters that a query matched are highlighted: its offsets
/// ascend, so each of them counts.
pub proof fn exactly_the_matches_are_highlighted(
    label: Seq<char>,
    positions: Seq<int>,
    selected: bool,
    i: int,
)
    requires
        search::on_characters(label, positions),
        forall|j: int, m: int|
            0 <= j < m < positions.len() ==> #[trigger] positions[j] < #[trigger] positions[m],
        0 <= i < label.len(),
    ensures
        ({
            let runs = panel::label_runs(
                label,
                positions,
                0,
                0,
                panel::label_tone(selected),
                panel::match_tone(),
            );
            &&& drawn_in(runs, panel::match_tone()).len() == label.len()
            &&& drawn_in(runs, panel::match_tone())[i] <==> positions.contains(
                text::byte_len(label.take(i)) as int,
            )
        }),
{
    highlights_follow_the_offsets(label, positions, selected, i);
    if is_matched(label, positions, 0, i) {
        let m = choose|m: int|
            0 <= m < positions.len() && #[trigger] positions[m] == text::byte_len(label.take(i))
                && goes_up_to(label, positions, 0, m);
        assert(positions.contains(positions[m]));
    }
    if positions.contains(text::byte_len(label.take(i)) as int) {
        let m = choose|m: int|
            0 <= m < positions.len() && positions[m] == text::byte_len(label.take(i)) as int;
        assert(goes_up_to(label, positions, 0, m));
        assert(positions[m] == text::byte_len(label.take(i)));
    }
}

/// The list shows the highlighted hit, and as many hits as there are and fit.
pub proof fn window_holds_the_cursor(cursor: int, hits: int, height: int)
    requires
        0 <= cursor,
        0 < hits,
        0 <= height,
    ensures
        ({
            let at = panel::list_cursor(cursor, hits);
            let start = panel::window_start(at, height);
            let end = panel::window_end(start, height, hits);
            &&& 0 <= start <= end <= hits
            &&& height > 0 ==> start <= at < end
            &&& end - start == (if height < hits {
                height
            } else {
                hits
            })
            &&& cursor < hits ==> at == cursor
        }),
{
}

/// With room for one line each, every row of the panel has its place: the
/// input, the divider, the list over all lines but three, and the footer.
pub proof fn rows_with_room_are_exact(inner: Area, rows: [Area; 4])
    requires
        inner.height >= 4,
        inner.y + inner.height <= u16::MAX,
        panel::rows_fit(inner, rows),
    ensures
        rows[0] == (Area { height: 1, ..inner }),
        rows[1] == (Area { y: (inner.y + 1) as u16, height: 1, ..inner }),
        rows[2] == (Area {
            y: (inner.y + 2) as u16,
            height: (inner.height - 3) as u16,
            ..inner
        }),
        rows[3] == (Area { y: (inner.y + inner.height - 1) as u16, height: 1, ..inner }),
{
    assert forall|i: int| 0 <= i < 4 implies panel::is_within(#[trigger] rows[i], inner) by {}
    assert(panel::is_within(rows[0], inner));
    assert(panel::is_within(rows[1], inner));
    assert(panel::is_within(rows[2], inner));
    assert(panel::is_within(rows[3], inner));
}

/// Without room for all, the list has one line if there is any, and every line
/// beside it belongs to one of the other rows.
pub proof fn rows_without_room_leave_the_list_a_line(inner: Area, rows: [Area; 4])
    requires
        inner.height < 4,
        inner.y + inner.height <= u16::MAX,
        panel::rows_fit(inner, rows),
    ensures
        rows[2].height == (if inner.height == 0 {
            0int
        } else {
            1
        }),
        rows[0].height + rows[1].height + rows[2].height + rows[3].height == inner.height,
{
}

/// From one line inside the border on, the highlighted hit is among the lines of
/// the list, marked as selected.
pub proof fn highlighted_hit_is_shown(
    outer: Area,
    rows: [Area; 4],
    draft: Seq<char>,
    at: int,
    j: JumpView,
)
    requires
        panel::rows_fit(panel::within_border(outer), rows),
        panel::within_border(outer).height >= 1,
        panel::within_border(outer).y + panel::within_border(outer).height <= u16::MAX,
        j.cursor < j.hits.len(),
    ensures
        panel::panel_of(outer, rows, draft, at, j).list.lines.contains(
            panel::row_line(
                j.candidates[j.hits[j.cursor as int].cand as int],
                search::ints(j.hits[j.cursor as int].positions@),
                true,
            ),
        ),
{
    let height = rows[2].height as int;
    let cursor = j.cursor as int;
    window_holds_the_cursor(cursor, j.hits.len() as int, height);
    let start = panel::window_start(cursor, height);
    let lines = panel::panel_of(outer, rows, draft, at, j).list.lines;
    assert(lines[cursor - start] == panel::row_line(
        j.candidates[j.hits[cursor].cand as int],
        search::ints(j.hits[cursor].positions@),
        true,
    ));
}

/// The input line shows the whole draft, with a blank for the cursor past its
/// end.
pub proof fn draft_is_shown_whole(draft: Seq<char>, cursor: int)
    requires
        0 <= cursor,
    ensures
        text_of(panel::draft_segments(draft, cursor)) == (if cursor < draft.len() {
            draft
        } else {
            draft + " "@
        }),
{
    let s = panel::draft_segments(draft, cursor);
    if cursor < draft.len() {
        assert(s =~= seq![s[0]] + seq![s[1]] + seq![s[2]]);
        lemma_text_of_sum(seq![s[0]] + seq![s[1]], seq![s[2]]);
        lemma_text_of_sum(seq![s[0]], seq![s[1]]);
        lemma_text_of_one(s[0]);
        lemma_text_of_one(s[1]);
        lemma_text_of_one(s[2]);
        assert(draft.take(cursor) + seq![draft[cursor]] + draft.skip(cursor + 1) =~= draft);
    } else {
        assert(s =~= seq![s[0]] + seq![s[1]]);
        lemma_text_of_sum(seq![s[0]], seq![s[1]]);
        lemma_text_of_one(s[0]);
        lemma_text_of_one(s[1]);
    }
}

/// The list shows consecutive hits, one to a line: from the first on while the
/// highlighted hit fits, and otherwise so that it ends with it. Exactly the
/// highlighted hit is drawn as selected.
pub proof fn the_list_shows_a_window(j: JumpView, height: int) -> (start: int)
    requires
        j.hits.len() > 0,
        0 < height,
    ensures
        ({
            let lines = panel::list_lines(j, height);
            let hits = j.hits.len() as int;
            let at = if j.cursor < hits {
                j.cursor as int
            } else {
                hits - 1
            };
            &&& lines.len() == (if height < hits {
                height
            } else {
                hits
            })
            &&& at < height ==> start == 0
            &&& at >= height ==> start + height == at + 1
            &&& start <= at < start + lines.len() <= hits
            &&& forall|k: int|
                0 <= k < lines.len() ==> #[trigger] lines[k] == panel::row_line(
                    j.candidates[j.hits[start + k].cand as int],
                    search::ints(j.hits[start + k].positions@),
                    start + k == at,
                )
        }),
{
    let hits = j.hits.len() as int;
    window_holds_the_cursor(j.cursor as int, hits, height);
    panel::window_start(panel::list_cursor(j.cursor as int, hits), height)
}

/// Without a hit the list says so.
pub proof fn an_empty_list_says_so(j: JumpView, height: int)
    requires
        j.hits.len() == 0,
    ensures
        panel::list_lines(j, height).len() == 1,
        text_of(panel::list_lines(j, height)[0].segments) == "  "@ + "no matches"@,
{
    let s = panel::empty_line().segments;
    assert(s =~= seq![s[0]] + seq![s[1]]);
    lemma_text_of_sum(seq![s[0]], seq![s[1]]);
    lemma_text_of_one(s[0]);
    lemma_text_of_one(s[1]);
}

/// A selected row is drawn over the cursor's ground with a mark in the accent,
/// any other over the panel's with an invisible one.
pub proof fn rows_are_marked_when_selected(cand: JumpCandidate, positions: Seq<int>, selected: bool)
    ensures
        ({
            let line = panel::row_line(cand, positions, selected);
            let ground = if selected {
                Role::Cursor
            } else {
                Role::Panel
            };
            let ink = if selected {
                Role::Accent
            } else {
                Role::Panel
            };
            &&& line.tone == (Tone { fg: None, bg: Some(ground), bold: false })
            &&& line.segments.len() > 0
            &&& line.segments[0].tone == (Tone { fg: Some(ink), bg: Some(ground), bold: true })
            &&& selected ==> line.segments[0].text == " ▶ "@
            &&& !selected ==> line.segments[0].text == "   "@
        }),
{
}

/// A folder is named in the accent; the area of a task is dimmed.
pub proof fn folders_stand_out(cand: JumpCandidate, positions: Seq<int>, selected: bool)
    ensures
        ({
            let segments = panel::row_line(cand, positions, selected).segments;
            let ground = if selected {
                Role::Cursor
            } else {
                Role::Panel
            };
            &&& cand.is_area ==> segments.len() == 2 && segments[1] == (SegmentView {
                text: cand.label@,
                tone: Tone { fg: Some(Role::Accent), bg: Some(ground), bold: true },
            })
            &&& !cand.is_area && cand.area@.len() > 0 ==> segments.len() >= 2 && segments[1] == (
            SegmentView {
                text: cand.area@ + "/ "@,
                tone: Tone { fg: Some(Role::Dim), bg: Some(ground), bold: false },
            })
        }),
{
}

/// Of a label, matches are drawn in the match colours, all else in the tone of
/// the row, bold where it is selected.
pub proof fn labels_have_two_tones(selected: bool)
    ensures
        panel::match_tone() == (Tone { fg: Some(Role::Bg), bg: Some(Role::Matched), bold: true }),
        selected ==> panel::label_tone(selected) == (Tone {
            fg: Some(Role::Fg),
            bg: Some(Role::Cursor),
            bold: true,
        }),
        !selected ==> panel::label_tone(selected) == (Tone {
            fg: Some(Role::Fg),
            bg: Some(Role::Panel),
            bold: false,
        }),
{
}

/// The character under the cursor, or the blank past the end, is drawn in
/// reverse, and no other.
pub proof fn the_caret_is_in_reverse(draft: Seq<char>, cursor: int)
    requires
        0 <= cursor,
    ensures
        ({
            let s = panel::draft_segments(draft, cursor);
            let caret = Tone { fg: Some(Role::Panel), bg: Some(Role::Fg), bold: false };
            let plain = Tone { fg: Some(Role::Fg), bg: Some(Role::Panel), bold: false };
            &&& s.len() >= 2
            &&& s[1].tone == caret
            &&& forall|k: int| 0 <= k < s.len() && k != 1 ==> (#[trigger] s[k]).tone == plain
            &&& cursor < draft.len() ==> s[0].text.len() == cursor && s[1].text == seq![
                draft[cursor],
            ]
            &&& cursor >= draft.len() ==> s[0].text == draft && s[1].text == " "@
        }),
{
}

/// Behind the draft the input line says the row that a number goes to, or how
/// many matches there are; for no draft it says nothing.
pub proof fn the_input_line_sums_up(draft: Seq<char>, cursor: int, matches: nat)
    requires
        0 <= cursor,
    ensures
        ({
            let numeric = forall|k: int|
                0 <= k < draft.len() ==> '0' <= #[trigger] draft[k] && draft[k] <= '9';
            text_of(panel::input_line(draft, cursor, matches).segments) == " "@ + ">"@ + " "@ + (
            if cursor < draft.len() {
                draft
            } else {
                draft + " "@
            }) + (if draft.len() == 0 {
                Seq::empty()
            } else if numeric {
                "  → row "@ + draft
            } else {
                "  "@ + panel::decimal(matches) + " matches"@
            })
        }),
{
    let all = panel::input_line(draft, cursor, matches).segments;
    let mid = panel::draft_segments(draft, cursor);
    let head = seq![all[0]] + seq![all[1]] + seq![all[2]];
    let tail = seq![all[all.len() - 1]];
    assert(all =~= head + mid + tail);
    lemma_text_of_sum(head + mid, tail);
    lemma_text_of_sum(head, mid);
    lemma_text_of_sum(seq![all[0]] + seq![all[1]], seq![all[2]]);
    lemma_text_of_sum(seq![all[0]], seq![all[1]]);
    lemma_text_of_one(all[0]);
    lemma_text_of_one(all[1]);
    lemma_text_of_one(all[2]);
    lemma_text_of_one(tail[0]);
    draft_is_shown_whole(draft, cursor);
    if forall|k: int| 0 <= k < draft.len() ==> '0' <= #[trigger] draft[k] && draft[k] <= '9' {
        assert(date::all_digits(draft));
    } else {
        let k = choose|k: int|
            0 <= k < draft.len() && !('0' <= #[trigger] draft[k] && draft[k] <= '9');
        assert(!date::is_digit(draft[k]));
    }
}

/// A number is written without a zero in front.
pub proof fn numbers_are_written_short(n: nat)
    ensures
        panel::decimal(n).len() > 0,
        n > 0 ==> panel::decimal(n)[0] != '0',
        n == 0 ==> panel::decimal(n) == seq!['0'],
        date::digits_value(panel::decimal(n)) == n,
    decreases n,
{
    panel::decimal_reads_back(n);
    if n >= 10 {
        numbers_are_written_short(n / 10);
        assert(panel::decimal(n)[0] == panel::decimal(n / 10)[0]);
    } else {
        assert(panel::decimal(0) =~= seq!['0']);
    }
}

/// The panel's lines stand in its rows: the input with the number of hits, a
/// rule across, the list in as many lines as its row has, and the keys.
pub proof fn the_panel_fills_its_rows(
    outer: Area,
    rows: [Area; 4],
    draft: Seq<char>,
    cursor: int,
    j: JumpView,
)
    ensures
        ({
            let p = panel::panel_of(outer, rows, draft, cursor, j);
            let ground = Tone { fg: Some(Role::Fg), bg: Some(Role::Panel), bold: false };
            &&& p.outer == outer
            &&& p.border == (Tone { fg: Some(Role::Border), bg: Some(Role::Panel), bold: false })
            &&& p.input.area == rows[0] && p.divider.area == rows[1] && p.list.area == rows[2]
                && p.footer.area == rows[3]
            &&& p.input.tone == ground && p.divider.tone == ground && p.list.tone == ground
                && p.footer.tone == ground
            &&& p.input.lines.len() == 1 && p.input.lines[0] == panel::input_line(
                draft,
                cursor,
                j.hits.len(),
            )
            &&& p.list.lines == panel::list_lines(j, rows[2].height as int)
            &&& p.divider.lines.len() == 1 && p.divider.lines[0].segments.len() == 1
            &&& p.divider.lines[0].segments[0].text.len() == rows[1].width
            &&& forall|k: int|
                0 <= k < rows[1].width ==> #[trigger] p.divider.lines[0].segments[0].text[k] == '─'
            &&& p.footer.lines.len() == 1
        }),
{
}

/// The title names the program and the overlay.
pub proof fn the_title_names_the_overlay()
    ensures
        text_of(panel::title_line().segments) == " "@ + "tuxemdo"@ + " · jump "@,
        panel::title_line().segments[1].tone == (Tone {
            fg: Some(Role::Accent),
            bg: None,
            bold: true,
        }),
{
    let s = panel::title_line().segments;
    assert(s =~= seq![s[0]] + seq![s[1]] + seq![s[2]]);
    lemma_text_of_sum(seq![s[0]] + seq![s[1]], seq![s[2]]);
    lemma_text_of_sum(seq![s[0]], seq![s[1]]);
    lemma_text_of_one(s[0]);
    lemma_text_of_one(s[1]);
    lemma_text_of_one(s[2]);
}

/// The footer names the keys, each in bold.
pub proof fn the_footer_names_the_keys()
    ensures
        ({
            let s = panel::footer_line().segments;
            let key = Tone { fg: Some(Role::Dim), bg: None, bold: true };
            &&& s.len() == 7
            &&& s[0].text == "  "@
            &&& s[1].text == "↑↓ / Ctrl-N/P"@ && s[1].tone == key
            &&& s[2].text == " · type text/folder, or a number · "@
            &&& s[3].text == "Enter"@ && s[3].tone == key
            &&& s[4].text == " jump · "@
            &&& s[5].text == "Esc"@ && s[5].tone == key
            &&& s[6].text == " cancel"@
        }),
{
}

proof fn lemma_runs_have_two_tones(
    label: Seq<char>,
    positions: Seq<int>,
    k: int,
    cur: int,
    base: Tone,
    hit: Tone,
)
    ensures
        forall|i: int|
            0 <= i < panel::label_runs(label, positions, k, cur, base, hit).len() ==> (
            #[trigger] panel::label_runs(label, positions, k, cur, base, hit)[i]).tone == base
                || panel::label_runs(label, positions, k, cur, base, hit)[i].tone == hit,
    decreases positions.len() - k,
{
    if k < positions.len() {
        if positions[k] < text::byte_len(label.take(cur)) || positions[k] >= text::byte_len(label) {
            lemma_runs_have_two_tones(label, positions, k + 1, cur, base, hit);
        } else {
            let at = panel::character_at(label, positions[k]);
            lemma_runs_have_two_tones(label, positions, k + 1, at + 1, base, hit);
        }
    }
}

/// The label of a task's row is drawn behind the mark and the area; exactly its
/// matched characters are in the match colours, and all others in the tone of
/// the row.
pub proof fn labels_are_drawn_with_their_matches(
    cand: JumpCandidate,
    positions: Seq<int>,
    selected: bool,
    i: int,
)
    requires
        !cand.is_area,
        search::on_characters(cand.label@, positions),
        forall|j: int, m: int|
            0 <= j < m < positions.len() ==> #[trigger] positions[j] < #[trigger] positions[m],
        0 <= i < cand.label@.len(),
    ensures
        ({
            let n: int = if cand.area@.len() == 0 {
                1
            } else {
                2
            };
            let runs = panel::row_line(cand, positions, selected).segments.skip(n);
            let hit = Tone { fg: Some(Role::Bg), bg: Some(Role::Matched), bold: true };
            let base = Tone {
                fg: Some(Role::Fg),
                bg: Some(
                    if selected {
                        Role::Cursor
                    } else {
                        Role::Panel
                    },
                ),
                bold: selected,
            };
            &&& text_of(runs) == cand.label@
            &&& drawn_in(runs, hit).len() == cand.label@.len()
            &&& drawn_in(runs, hit)[i] <==> positions.contains(
                text::byte_len(cand.label@.take(i)) as int,
            )
            &&& forall|k: int|
                0 <= k < runs.len() ==> (#[trigger] runs[k]).tone == base || runs[k].tone == hit
        }),
{
    let n: int = if cand.area@.len() == 0 {
        1
    } else {
        2
    };
    let label = cand.label@;
    let all = panel::row_line(cand, positions, selected).segments;
    let runs = panel::label_runs(
        label,
        positions,
        0,
        0,
        panel::label_tone(selected),
        panel::match_tone(),
    );
    assert(all.skip(n) =~= runs);
    lemma_runs_have_two_tones(
        label,
        positions,
        0,
        0,
        panel::label_tone(selected),
        panel::match_tone(),
    );
    label_is_shown_whole(label, positions, panel::label_tone(selected), panel::match_tone());
    exactly_the_matches_are_highlighted(label, positions, selected, i);
}

} // verus!
