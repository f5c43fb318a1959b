//! The panel of the jump overlay: what it says, where, and in which colours.
use crate::date;
use crate::date::is_number;
use crate::jump;
use crate::jump::{JumpCandidate, JumpHit};
use crate::line::slice;
use crate::search;
use crate::text;
use crate::text::{bytes_in, chars_of, string_of, width_of};
use crate::visibility::App;
use ratatui::layout::{Constraint, Layout, Rect};
use ratatui::widgets::{Block, Borders};
use vstd::prelude::*;

verus! {

/// A rectangle of the screen.
#[derive(Clone, Copy, Debug, PartialEq, Eq, Structural)]
pub struct Area {
    pub x: u16,
    pub y: u16,
    pub width: u16,
    pub height: u16,
}

/// What a colour is for; the theme decides which colour that is.
#[derive(Clone, Copy, Debug, PartialEq, Eq, Structural)]
pub enum Role {
    Border,
    Panel,
    Accent,
    Dim,
    Fg,
    Bg,
    Cursor,
    Matched,
}

/// How a text is drawn; a colour that is not given is inherited.
#[derive(Clone, Copy, Debug, PartialEq, Eq)]
pub struct Tone {
    pub fg: Option<Role>,
    pub bg: Option<Role>,
    pub bold: bool,
}

/// A text drawn in one tone.
#[derive(Debug)]
pub struct Segment {
    pub text: String,
    pub tone: Tone,
}

#[verifier::ext_equal]
pub struct SegmentView {
    pub text: Seq<char>,
    pub tone: Tone,
}

impl View for Segment {
    type V = SegmentView;

    open spec fn view(&self) -> SegmentView {
        SegmentView { text: self.text@, tone: self.tone }
    }
}

/// A line of segments over a tone of its own.
#[derive(Debug)]
pub struct StyledLine {
    pub segments: Vec<Segment>,
    pub tone: Tone,
}

#[verifier::ext_equal]
pub struct LineView {
    pub segments: Seq<SegmentView>,
    pub tone: Tone,
}

pub open spec fn segment_views(v: Seq<Segment>) -> Seq<SegmentView> {
    Seq::new(v.len(), |i: int| v[i]@)
}

impl View for StyledLine {
    type V = LineView;

    open spec fn view(&self) -> LineView {
        LineView { segments: segment_views(self.segments@), tone: self.tone }
    }
}

/// Lines and the rectangle that they are drawn in.
#[derive(Debug)]
pub struct Placed {
    pub area: Area,
    pub lines: Vec<StyledLine>,
    pub tone: Tone,
}

#[verifier::ext_equal]
pub struct PlacedView {
    pub area: Area,
    pub lines: Seq<LineView>,
    pub tone: Tone,
}

pub open spec fn line_views(v: Seq<StyledLine>) -> Seq<LineView> {
    Seq::new(v.len(), |i: int| v[i]@)
}

impl View for Placed {
    type V = PlacedView;

    open spec fn view(&self) -> PlacedView {
        PlacedView { area: self.area, lines: line_views(self.lines@), tone: self.tone }
    }
}

/// The whole panel.
#[derive(Debug)]
pub struct Panel {
    /// The rectangle with the border round it.
    pub outer: Area,
    pub border: Tone,
    pub title: StyledLine,
    pub tone: Tone,
    pub input: Placed,
    pub divider: Placed,
    pub list: Placed,
    pub footer: Placed,
}

#[verifier::ext_equal]
pub struct PanelView {
    pub outer: Area,
    pub border: Tone,
    pub title: LineView,
    pub tone: Tone,
    pub input: PlacedView,
    pub divider: PlacedView,
    pub list: PlacedView,
    pub footer: PlacedView,
}

impl View for Panel {
    type V = PanelView;

    open spec fn view(&self) -> PanelView {
        PanelView {
            outer: self.outer,
            border: self.border,
            title: self.title@,
            tone: self.tone,
            input: self.input@,
            divider: self.divider@,
            list: self.list@,
            footer: self.footer@,
        }
    }
}

/// The tone of a text without one.
pub open spec fn no_tone() -> Tone {
    Tone { fg: None, bg: None, bold: false }
}

/// A text in a foreground colour.
pub open spec fn in_colour(fg: Role) -> Tone {
    Tone { fg: Some(fg), bg: None, bold: false }
}

/// The tone of the panel's lines.
pub open spec fn panel_tone() -> Tone {
    Tone { fg: Some(Role::Fg), bg: Some(Role::Panel), bold: false }
}

fn plain() -> (r: Tone)
    ensures
        r == no_tone(),
{
    Tone { fg: None, bg: None, bold: false }
}

fn coloured(fg: Role) -> (r: Tone)
    ensures
        r == in_colour(fg),
{
    Tone { fg: Some(fg), bg: None, bold: false }
}

fn ground() -> (r: Tone)
    ensures
        r == panel_tone(),
{
    Tone { fg: Some(Role::Fg), bg: Some(Role::Panel), bold: false }
}

fn piece(text: &str, tone: Tone) -> (r: Segment)
    ensures
        r@ == (SegmentView { text: text@, tone }),
{
    Segment { text: text.to_owned(), tone }
}

// ---- numbers ----

/// The decimal digits of a number.
pub open spec fn decimal(n: nat) -> Seq<char>
    decreases n,
{
    if n < 10 {
        seq![('0' as int + n) as char]
    } else {
        decimal(n / 10).push(('0' as int + n % 10) as char)
    }
}

fn digit(n: usize) -> (r: char)
    requires
        n < 10,
    ensures
        r == ('0' as int + n) as char,
{
    let v: u8 = 48 + n as u8;
    v as char
}

/// The decimal digits of a number.
pub fn decimal_of(n: usize) -> (r: Vec<char>)
    ensures
        r@ == decimal(n as nat),
    decreases n,
{
    if n < 10 {
        let mut out: Vec<char> = Vec::new();
        out.push(digit(n));
        proof {
            assert(out@ =~= decimal(n as nat));
        }
        out
    } else {
        let mut out: Vec<char> = decimal_of(n / 10);
        out.push(digit(n % 10));
        out
    }
}

/// The digits of a number write that number.
pub proof fn decimal_reads_back(n: nat)
    ensures
        date::all_digits(decimal(n)),
        date::digits_value(decimal(n)) == n,
        decimal(n).len() > 0,
    decreases n,
{
    let s = decimal(n);
    if n < 10 {
        assert(s.drop_last() =~= Seq::<char>::empty());
        assert(date::digits_value(s.drop_last()) == 0);
    } else {
        decimal_reads_back(n / 10);
        assert(s.drop_last() =~= decimal(n / 10));
    }
}

// ---- the rows of the list ----

/// The character of `label` that begins at a byte offset.
pub open spec fn character_at(label: Seq<char>, offset: int) -> int {
    choose|i: int| 0 <= i < label.len() && text::byte_len(#[trigger] label.take(i)) == offset
}

proof fn lemma_character_at(label: Seq<char>, i: int)
    requires
        0 <= i < label.len(),
    ensures
        character_at(label, text::byte_len(label.take(i)) as int) == i,
{
    let offset = text::byte_len(label.take(i)) as int;
    assert(text::byte_len(label.take(i)) == offset);
    let c = character_at(label, offset);
    if c < i {
        text::lemma_byte_len_prefix(label, c, i);
    } else if i < c {
        text::lemma_byte_len_prefix(label, i, c);
    }
}

/// The label from the character `cur` on, cut at the characters that the
/// offsets from the `k`th on name: those in the tone of a match, what lies
/// between in the tone of the row. Offsets before `cur` and past the end count
/// for nothing.
pub open spec fn label_runs(
    label: Seq<char>,
    positions: Seq<int>,
    k: int,
    cur: int,
    base: Tone,
    hit: Tone,
) -> Seq<SegmentView>
    decreases positions.len() - k,
{
    if k >= positions.len() {
        if cur < label.len() {
            seq![SegmentView { text: label.skip(cur), tone: base }]
        } else {
            Seq::empty()
        }
    } else if positions[k] < text::byte_len(label.take(cur)) || positions[k] >= text::byte_len(
        label,
    ) {
        label_runs(label, positions, k + 1, cur, base, hit)
    } else {
        let at = character_at(label, positions[k]);
        let between = if cur < at {
            seq![SegmentView { text: label.subrange(cur, at), tone: base }]
        } else {
            Seq::empty()
        };
        between + seq![SegmentView { text: seq![label[at]], tone: hit }] + label_runs(
            label,
            positions,
            k + 1,
            at + 1,
            base,
            hit,
        )
    }
}

/// The background of a row.
pub open spec fn row_ground(selected: bool) -> Role {
    if selected {
        Role::Cursor
    } else {
        Role::Panel
    }
}

/// The mark before a row.
pub open spec fn row_mark(selected: bool) -> SegmentView {
    SegmentView {
        text: if selected {
            " ▶ "@
        } else {
            "   "@
        },
        tone: Tone {
            fg: Some(
                if selected {
                    Role::Accent
                } else {
                    Role::Panel
                },
            ),
            bg: Some(row_ground(selected)),
            bold: true,
        },
    }
}

/// The tone of a label.
pub open spec fn label_tone(selected: bool) -> Tone {
    Tone { fg: Some(Role::Fg), bg: Some(row_ground(selected)), bold: selected }
}

/// The tone of a matched character.
pub open spec fn match_tone() -> Tone {
    Tone { fg: Some(Role::Bg), bg: Some(Role::Matched), bold: true }
}

/// The line of a candidate: a mark; then the name of a folder, or the area of
/// a task, if it has one, and the task's label with its matches.
pub open spec fn row_line(cand: JumpCandidate, positions: Seq<int>, selected: bool) -> LineView {
    let ground = row_ground(selected);
    let mark = seq![row_mark(selected)];
    LineView {
        segments: if cand.is_area {
            mark.push(
                SegmentView {
                    text: cand.label@,
                    tone: Tone { fg: Some(Role::Accent), bg: Some(ground), bold: true },
                },
            )
        } else {
            mark + (if cand.area@.len() == 0 {
                Seq::empty()
            } else {
                seq![
                    SegmentView {
                        text: cand.area@ + "/ "@,
                        tone: Tone { fg: Some(Role::Dim), bg: Some(ground), bold: false },
                    },
                ]
            }) + label_runs(cand.label@, positions, 0, 0, label_tone(selected), match_tone())
        },
        tone: Tone { fg: None, bg: Some(ground), bold: false },
    }
}

/// Part of a list of characters, as a string.
fn part_of(chars: &Vec<char>, from: usize, to: usize) -> (r: String)
    requires
        from <= to <= chars.len(),
    ensures
        r@ == chars@.subrange(from as int, to as int),
{
    string_of(&slice(chars, from, to))
}

/// The character that begins at the byte offset `p`, at `from` or after it;
/// `reached` is the offset of `from`.
fn seek(chars: &Vec<char>, from: usize, reached: usize, p: usize) -> (r: usize)
    requires
        from <= chars.len(),
        reached == text::byte_len(chars@.take(from as int)),
        reached <= p,
        text::byte_len(chars@) <= usize::MAX,
        exists|i: int|
            0 <= i < chars@.len() && text::byte_len(#[trigger] chars@.take(i)) == p as int,
    ensures
        from <= r < chars@.len(),
        text::byte_len(chars@.take(r as int)) == p,
        r == character_at(chars@, p as int),
{
    let ghost at = choose|i: int|
        0 <= i < chars@.len() && text::byte_len(#[trigger] chars@.take(i)) == p as int;
    proof {
        lemma_character_at(chars@, at);
        if at < from {
            text::lemma_byte_len_prefix(chars@, at, from as int);
        }
    }
    let mut i: usize = from;
    let mut offset: usize = reached;
    while offset < p
        invariant
            from <= i <= at < chars@.len(),
            chars@.len() == chars.len(),
            text::byte_len(chars@) <= usize::MAX,
            text::byte_len(chars@.take(at)) == p,
            offset == text::byte_len(chars@.take(i as int)),
        decreases at - i,
    {
        proof {
            text::lemma_byte_len_next(chars@, i as int);
        }
        offset += width_of(chars[i]);
        i += 1;
    }
    proof {
        text::lemma_byte_len_prefix(chars@, i as int, at);
    }
    i
}

/// The offset `p` lies before `reached`.
spec fn passed(p: int, reached: int) -> bool {
    p < reached
}

proof fn lemma_reach(label: Seq<char>, cur: int, q: int, p: int)
    requires
        0 <= cur <= label.len(),
        q < text::byte_len(label.take(cur)) || q >= text::byte_len(label),
        search::reaches_past(label, q, p),
    ensures
        p < text::byte_len(label.take(cur)),
{
    let i = choose|i: int|
        0 <= i < label.len() && text::byte_len(#[trigger] label.take(i)) == q && p
            < text::byte_len(label.take(i + 1));
    assert(label.take(label.len() as int) =~= label);
    text::lemma_byte_len_prefix(label, i, label.len() as int);
    if cur <= i {
        text::lemma_byte_len_prefix(label, cur, i);
    } else {
        text::lemma_byte_len_prefix(label, i + 1, cur);
    }
}

/// Cut a label at the characters that byte offsets name, after some segments.
fn push_label(
    segments: &mut Vec<Segment>,
    label: &str,
    positions: &Vec<usize>,
    base: Tone,
    hit: Tone,
)
    requires
        search::can_be_cut(label@, search::ints(positions@)),
    ensures
        segment_views(final(segments)@) == segment_views(old(segments)@) + label_runs(
            label@,
            search::ints(positions@),
            0,
            0,
            base,
            hit,
        ),
{
    let total: usize = bytes_in(label);
    let chars: Vec<char> = chars_of(label);
    let ghost places = search::ints(positions@);
    let ghost start = segment_views(segments@);
    let mut cur: usize = 0;
    // The byte offset of the character at `cur`.
    let mut reached: usize = 0;
    let mut k: usize = 0;
    proof {
        assert(chars@.take(0) =~= Seq::<char>::empty());
        assert(start + label_runs(label@, places, 0, 0, base, hit) == segment_views(segments@)
            + label_runs(label@, places, 0, 0, base, hit));
    }
    while k < positions.len()
        invariant
            chars@ == label@,
            total == text::byte_len(label@),
            places == search::ints(positions@),
            search::can_be_cut(label@, places),
            k <= positions.len(),
            cur <= chars.len(),
            reached == text::byte_len(label@.take(cur as int)),
            forall|j: int, p: int|
                0 <= j < k && search::reaches_past(label@, #[trigger] places[j], p)
                    ==> #[trigger] passed(p, reached as int),
            start + label_runs(label@, places, 0, 0, base, hit) == segment_views(segments@)
                + label_runs(label@, places, k as int, cur as int, base, hit),
        decreases positions.len() - k,
    {
        let p: usize = positions[k];
        assert(places[k as int] == p);
        if p < reached || p >= total {
            proof {
                assert forall|x: int| search::reaches_past(
                    label@,
                    places[k as int],
                    x,
                ) implies #[trigger] passed(x, reached as int) by {
                    lemma_reach(label@, cur as int, p as int, x);
                }
            }
            k += 1;
            continue ;
        }
        proof {
            assert(!passed(p as int, reached as int));
            assert(search::begins_character(label@, places[k as int]));
        }
        let ghost at = character_at(label@, p as int);
        let ghost before = segments@;
        let i: usize = seek(&chars, cur, reached, p);
        if cur < i {
            segments.push(Segment { text: part_of(&chars, cur, i), tone: base });
        }
        let ghost mid = segments@;
        segments.push(Segment { text: part_of(&chars, i, i + 1), tone: hit });
        proof {
            let now = segments@;
            assert(label@.subrange(at, at + 1) =~= seq![label@[at]]);
            let between = if cur < at {
                seq![SegmentView { text: label@.subrange(cur as int, at), tone: base }]
            } else {
                Seq::empty()
            };
            let one = seq![SegmentView { text: seq![label@[at]], tone: hit }];
            assert(segment_views(mid) =~= segment_views(before) + between);
            assert(segment_views(now) =~= segment_views(mid) + one);
            let rest = label_runs(label@, places, k + 1, at + 1, base, hit);
            assert(segment_views(before) + (between + one + rest) =~= segment_views(now) + rest);
            text::lemma_byte_len_next(label@, at);
        }
        let ghost was = reached as int;
        reached = p;
        reached += width_of(chars[i]);
        proof {
            assert forall|j: int, x: int|
                0 <= j < k + 1 && search::reaches_past(
                    label@,
                    #[trigger] places[j],
                    x,
                ) implies #[trigger] passed(x, reached as int) by {
                if j < k {
                    assert(passed(x, was));
                } else {
                    lemma_reach(label@, at + 1, p as int, x);
                }
            }
        }
        cur = i + 1;
        k += 1;
    }
    if cur < chars.len() {
        let ghost before = segments@;
        segments.push(Segment { text: part_of(&chars, cur, chars.len()), tone: base });
        proof {
            assert(label@.subrange(cur as int, label@.len() as int) =~= label@.skip(cur as int));
            assert(segment_views(segments@) =~= segment_views(before) + seq![
                SegmentView { text: label@.skip(cur as int), tone: base },
            ]);
        }
    } else {
        proof {
            assert(segment_views(segments@) + Seq::<SegmentView>::empty() =~= segment_views(
                segments@,
            ));
        }
    }
}

/// The line of a candidate, with the characters at the given byte offsets of
/// its label highlighted; a folder has none.
pub fn render_row(cand: &JumpCandidate, positions: &Vec<usize>, selected: bool) -> (r: StyledLine)
    requires
        !cand.is_area ==> search::can_be_cut(cand.label@, search::ints(positions@)),
    ensures
        r@ == row_line(*cand, search::ints(positions@), selected),
{
    let bg: Role = if selected {
        Role::Cursor
    } else {
        Role::Panel
    };
    let line: Tone = Tone { fg: None, bg: Some(bg), bold: false };
    let base: Tone = Tone { fg: Some(Role::Fg), bg: Some(bg), bold: selected };
    let hit: Tone = Tone { fg: Some(Role::Bg), bg: Some(Role::Matched), bold: true };
    let mut segments: Vec<Segment> = Vec::new();
    let mark: Segment = if selected {
        piece(" ▶ ", Tone { fg: Some(Role::Accent), bg: Some(bg), bold: true })
    } else {
        piece("   ", Tone { fg: Some(bg), bg: Some(bg), bold: true })
    };
    segments.push(mark);
    proof {
        assert(segment_views(segments@) =~= seq![row_mark(selected)]);
    }
    if cand.is_area {
        let ghost before = segments@;
        segments.push(
            piece(
                cand.label.as_str(),
                Tone { fg: Some(Role::Accent), bg: Some(bg), bold: true },
            ),
        );
        proof {
            assert(segment_views(segments@) =~= segment_views(before).push(
                segments@.last()@,
            ));
        }
        return StyledLine { segments, tone: line };
    }
    if !cand.area.as_str().is_empty() {
        let mut area: String = cand.area.clone();
        area.append("/ ");
        let ghost before = segments@;
        segments.push(
            Segment { text: area, tone: Tone { fg: Some(Role::Dim), bg: Some(bg), bold: false } },
        );
        proof {
            assert(segment_views(segments@) =~= segment_views(before) + seq![segments@.last()@]);
        }
    } else {
        proof {
            assert(segment_views(segments@) + Seq::<SegmentView>::empty() =~= segment_views(
                segments@,
            ));
        }
    }
    push_label(&mut segments, cand.label.as_str(), positions, base, hit);
    StyledLine { segments, tone: line }
}

// ---- the input line ----

/// The tone of the character under the cursor.
pub open spec fn caret_tone() -> Tone {
    Tone { fg: Some(Role::Panel), bg: Some(Role::Fg), bold: false }
}

/// A draft with the character under its cursor, or a blank past its end, in
/// reverse.
pub open spec fn draft_segments(draft: Seq<char>, cursor: int) -> Seq<SegmentView> {
    if cursor < draft.len() {
        seq![
            SegmentView { text: draft.take(cursor), tone: panel_tone() },
            SegmentView { text: seq![draft[cursor]], tone: caret_tone() },
            SegmentView { text: draft.skip(cursor + 1), tone: panel_tone() },
        ]
    } else {
        seq![
            SegmentView { text: draft, tone: panel_tone() },
            SegmentView { text: " "@, tone: caret_tone() },
        ]
    }
}

/// A draft with its cursor.
pub fn draft_cursor_spans(draft: &str, cursor: usize) -> (r: Vec<Segment>)
    ensures
        segment_views(r@) == draft_segments(draft@, cursor as int),
{
    let caret: Tone = Tone { fg: Some(Role::Panel), bg: Some(Role::Fg), bold: false };
    let chars: Vec<char> = chars_of(draft);
    let mut out: Vec<Segment> = Vec::new();
    if cursor < chars.len() {
        out.push(Segment { text: part_of(&chars, 0, cursor), tone: ground() });
        out.push(Segment { text: part_of(&chars, cursor, cursor + 1), tone: caret });
        out.push(Segment { text: part_of(&chars, cursor + 1, chars.len()), tone: ground() });
        proof {
            assert(draft@.subrange(cursor as int, cursor + 1) =~= seq![draft@[cursor as int]]);
            assert(draft@.subrange(0, cursor as int) =~= draft@.take(cursor as int));
            assert(draft@.subrange(cursor + 1, draft@.len() as int) =~= draft@.skip(cursor + 1));
        }
    } else {
        out.push(piece(draft, ground()));
        out.push(piece(" ", caret));
    }
    proof {
        assert(segment_views(out@) =~= draft_segments(draft@, cursor as int));
    }
    out
}

/// What the input line says after the draft: nothing for no draft, the row
/// that a number stands for, or how many matches there are.
pub open spec fn summary(draft: Seq<char>, matches: nat) -> Seq<char> {
    if draft.len() == 0 {
        Seq::empty()
    } else if date::all_digits(draft) {
        "  → row "@ + draft
    } else {
        "  "@ + decimal(matches) + " matches"@
    }
}

fn summary_of(draft: &str, matches: usize) -> (r: String)
    ensures
        r@ == summary(draft@, matches as nat),
{
    let chars: Vec<char> = chars_of(draft);
    if chars.len() == 0 {
        let r: String = String::new();
        proof {
            assert(r@ =~= Seq::<char>::empty());
        }
        r
    } else if is_number(&chars) {
        let mut r: String = "  → row ".to_owned();
        r.append(draft);
        r
    } else {
        let mut r: String = "  ".to_owned();
        let count: String = string_of(&decimal_of(matches));
        r.append(count.as_str());
        r.append(" matches");
        r
    }
}

/// The input line: a prompt, the draft and the summary.
pub open spec fn input_line(draft: Seq<char>, cursor: int, matches: nat) -> LineView {
    LineView {
        segments: seq![
            SegmentView { text: " "@, tone: no_tone() },
            SegmentView {
                text: ">"@,
                tone: Tone { fg: Some(Role::Accent), bg: None, bold: true },
            },
            SegmentView { text: " "@, tone: no_tone() },
        ] + draft_segments(draft, cursor) + seq![
            SegmentView { text: summary(draft, matches), tone: in_colour(Role::Dim) },
        ],
        tone: panel_tone(),
    }
}

fn input_of(draft: &str, cursor: usize, matches: usize) -> (r: StyledLine)
    ensures
        r@ == input_line(draft@, cursor as int, matches as nat),
{
    let mut segments: Vec<Segment> = Vec::new();
    segments.push(piece(" ", plain()));
    segments.push(piece(">", Tone { fg: Some(Role::Accent), bg: None, bold: true }));
    segments.push(piece(" ", plain()));
    let ghost head = segments@;
    let mut spans: Vec<Segment> = draft_cursor_spans(draft, cursor);
    let ghost mid = spans@;
    segments.append(&mut spans);
    segments.push(
        Segment { text: summary_of(draft, matches), tone: coloured(Role::Dim) },
    );
    proof {
        assert(segment_views(segments@) =~= segment_views(head) + segment_views(mid) + seq![
            segments@.last()@,
        ]);
        assert(segment_views(head) =~= seq![
            SegmentView { text: " "@, tone: no_tone() },
            SegmentView {
                text: ">"@,
                tone: Tone { fg: Some(Role::Accent), bg: None, bold: true },
            },
            SegmentView { text: " "@, tone: no_tone() },
        ]);
    }
    StyledLine { segments, tone: ground() }
}

// ---- the fixed lines ----

/// The title in the border.
pub open spec fn title_line() -> LineView {
    LineView {
        segments: seq![
            SegmentView { text: " "@, tone: no_tone() },
            SegmentView {
                text: "tuxemdo"@,
                tone: Tone { fg: Some(Role::Accent), bg: None, bold: true },
            },
            SegmentView { text: " · jump "@, tone: in_colour(Role::Dim) },
        ],
        tone: no_tone(),
    }
}

fn title() -> (r: StyledLine)
    ensures
        r@ == title_line(),
{
    let mut segments: Vec<Segment> = Vec::new();
    segments.push(piece(" ", plain()));
    segments.push(piece("tuxemdo", Tone { fg: Some(Role::Accent), bg: None, bold: true }));
    segments.push(piece(" · jump ", coloured(Role::Dim)));
    let r = StyledLine { segments, tone: plain() };
    proof {
        assert(r@ =~= title_line());
    }
    r
}

/// A rule as wide as its rectangle.
pub open spec fn divider_line(width: nat) -> LineView {
    LineView {
        segments: seq![
            SegmentView { text: Seq::new(width, |i: int| '─'), tone: in_colour(Role::Border) },
        ],
        tone: panel_tone(),
    }
}

fn divider(width: u16) -> (r: StyledLine)
    ensures
        r@ == divider_line(width as nat),
{
    let mut rule: String = String::new();
    let mut i: u16 = 0;
    while i < width
        invariant
            i <= width,
            rule@ == Seq::new(i as nat, |k: int| '─'),
        decreases width - i,
    {
        rule.push('─');
        i += 1;
        proof {
            assert(rule@ =~= Seq::new(i as nat, |k: int| '─'));
        }
    }
    let mut segments: Vec<Segment> = Vec::new();
    segments.push(Segment { text: rule, tone: coloured(Role::Border) });
    let r = StyledLine { segments, tone: ground() };
    proof {
        assert(r@ =~= divider_line(width as nat));
    }
    r
}

/// What stands in place of an empty list.
pub open spec fn empty_line() -> LineView {
    LineView {
        segments: seq![
            SegmentView { text: "  "@, tone: no_tone() },
            SegmentView { text: "no matches"@, tone: in_colour(Role::Dim) },
        ],
        tone: panel_tone(),
    }
}

fn nothing() -> (r: StyledLine)
    ensures
        r@ == empty_line(),
{
    let mut segments: Vec<Segment> = Vec::new();
    segments.push(piece("  ", plain()));
    segments.push(piece("no matches", coloured(Role::Dim)));
    let r = StyledLine { segments, tone: ground() };
    proof {
        assert(r@ =~= empty_line());
    }
    r
}

/// The keys.
pub open spec fn footer_line() -> LineView {
    let key = Tone { fg: Some(Role::Dim), bg: None, bold: true };
    LineView {
        segments: seq![
            SegmentView { text: "  "@, tone: no_tone() },
            SegmentView { text: "↑↓ / Ctrl-N/P"@, tone: key },
            SegmentView {
                text: " · type text/folder, or a number · "@,
                tone: in_colour(Role::Dim),
            },
            SegmentView { text: "Enter"@, tone: key },
            SegmentView { text: " jump · "@, tone: in_colour(Role::Dim) },
            SegmentView { text: "Esc"@, tone: key },
            SegmentView { text: " cancel"@, tone: in_colour(Role::Dim) },
        ],
        tone: panel_tone(),
    }
}

fn footer() -> (r: StyledLine)
    ensures
        r@ == footer_line(),
{
    let key: Tone = Tone { fg: Some(Role::Dim), bg: None, bold: true };
    let mut segments: Vec<Segment> = Vec::new();
    segments.push(piece("  ", plain()));
    segments.push(piece("↑↓ / Ctrl-N/P", key));
    segments.push(piece(" · type text/folder, or a number · ", coloured(Role::Dim)));
    segments.push(piece("Enter", key));
    segments.push(piece(" jump · ", coloured(Role::Dim)));
    segments.push(piece("Esc", key));
    segments.push(piece(" cancel", coloured(Role::Dim)));
    let r = StyledLine { segments, tone: ground() };
    proof {
        assert(r@ =~= footer_line());
    }
    r
}

// ---- the list ----

/// The highlighted hit, kept within the list.
pub open spec fn list_cursor(cursor: int, hits: int) -> int {
    if cursor < hits - 1 {
        cursor
    } else {
        hits - 1
    }
}

/// The first hit that a list of some height shows: the list stays at its top
/// as long as the highlighted hit fits, and then ends with it.
pub open spec fn window_start(cursor: int, height: int) -> int {
    if cursor < height {
        0
    } else {
        cursor + 1 - height
    }
}

/// The hit after the last that is shown.
pub open spec fn window_end(start: int, height: int, hits: int) -> int {
    if start + height < hits {
        start + height
    } else {
        hits
    }
}

/// The lines of the list.
pub open spec fn list_lines(j: jump::JumpView, height: int) -> Seq<LineView> {
    if j.hits.len() == 0 {
        seq![empty_line()]
    } else {
        let cursor = list_cursor(j.cursor as int, j.hits.len() as int);
        let start = window_start(cursor, height);
        let end = window_end(start, height, j.hits.len() as int);
        Seq::new(
            (end - start) as nat,
            |i: int|
                row_line(
                    j.candidates[j.hits[start + i].cand as int],
                    search::ints(j.hits[start + i].positions@),
                    start + i == cursor,
                ),
        )
    }
}

fn list_of(app: &App, height: usize) -> (r: Vec<StyledLine>)
    requires
        app.jump.wf(),
    ensures
        line_views(r@) == list_lines(app.jump@, height as int),
{
    let hits = app.jump.hits();
    let mut lines: Vec<StyledLine> = Vec::new();
    if hits.len() == 0 {
        lines.push(nothing());
        proof {
            assert(line_views(lines@) =~= list_lines(app.jump@, height as int));
        }
        return lines;
    }
    let at: usize = app.jump.cursor();
    let cursor: usize = if at < hits.len() - 1 {
        at
    } else {
        hits.len() - 1
    };
    let start: usize = if cursor < height {
        0
    } else {
        cursor - height + 1
    };
    let end: usize = if height < hits.len() - start {
        start + height
    } else {
        hits.len()
    };
    let mut i: usize = start;
    while i < end
        invariant
            app.jump.wf(),
            hits@ == app.jump@.hits,
            start <= i <= end <= hits@.len(),
            lines@.len() == i - start,
            forall|k: int|
                0 <= k < lines@.len() ==> (#[trigger] lines@[k])@ == row_line(
                    app.jump@.candidates[hits@[start + k].cand as int],
                    search::ints(hits@[start + k].positions@),
                    start + k == cursor,
                ),
        decreases end - i,
    {
        let hit: &JumpHit = &hits[i];
        assert(jump::points_into(app.jump@.hits[i as int], app.jump@.candidates));
        lines.push(render_row(app.jump.candidate(hit.cand), &hit.positions, i == cursor));
        i += 1;
    }
    proof {
        assert(line_views(lines@) =~= list_lines(app.jump@, height as int));
    }
    lines
}

// ---- the whole panel ----

/// The rectangle inside a border on all four sides.
pub open spec fn within_border(a: Area) -> Area {
    Area {
        x: if a.width == 0 || a.x == u16::MAX {
            a.x
        } else {
            (a.x + 1) as u16
        },
        y: if a.height == 0 || a.y == u16::MAX {
            a.y
        } else {
            (a.y + 1) as u16
        },
        width: if a.width < 2 {
            0
        } else {
            (a.width - 2) as u16
        },
        height: if a.height < 2 {
            0
        } else {
            (a.height - 2) as u16
        },
    }
}

/// `Block::inner` of `ratatui`, for a block with all four borders and no
/// padding: each side takes one cell, as far as there is one, and the corner
/// moves past the border, but not past the rectangle and not past the largest
/// coordinate.
#[verifier::external_body]
fn inside_border(area: Area) -> (r: Area)
    ensures
        r == within_border(area),
{
    let outer = Rect { x: area.x, y: area.y, width: area.width, height: area.height };
    let r = Block::default().borders(Borders::ALL).inner(outer);
    Area { x: r.x, y: r.y, width: r.width, height: r.height }
}

/// A row of `area`: as wide as it, between its top and its bottom.
pub open spec fn is_within(row: Area, area: Area) -> bool {
    &&& row.x == area.x
    &&& row.width == area.width
    &&& area.y <= row.y
    &&& row.y + row.height <= area.y + area.height
}

/// `rows` stand one below the other and take up `area` from top to bottom.
pub open spec fn fills(rows: [Area; 4], area: Area) -> bool {
    &&& rows[0].y == area.y
    &&& rows[0].y + rows[0].height == rows[1].y
    &&& rows[1].y + rows[1].height == rows[2].y
    &&& rows[2].y + rows[2].height == rows[3].y
    &&& rows[3].y + rows[3].height == area.y + area.height
}

/// The lines that are left of `height` beside rows of `fixed` lines together,
/// but `least` of them at any rate, as far as there are so many.
pub open spec fn flexible_height(height: int, fixed: int, least: int) -> int {
    if fixed + least <= height {
        height - fixed
    } else if least <= height {
        least
    } else {
        height
    }
}

/// `Layout::areas` of `ratatui`, for a vertical layout of two fixed heights, a
/// least height and a third fixed height.
///
/// Every row has the rectangle's left side and width, and lies between its top
/// and its bottom. Of a rectangle whose bottom is a coordinate, the rows take up
/// all lines, one row below the other: a gap or an overlap costs the constraint
/// solver more than any height. No fixed row is higher than it is asked to be.
/// The row with the least height has what the fixed rows leave, but that least
/// height before they have any, since it weighs more than they do together. The
/// solver takes it for a signed number of 16 bits, so nothing of this is claimed
/// for a larger one, unless there is room for all.
///
/// Left unsaid: which of the fixed rows are made smaller where there is not room
/// for all. The solver has more than one best answer then.
#[verifier::external_body]
fn split_rows(area: Area, first: u16, second: u16, least: u16, last: u16) -> (r: [Area; 4])
    ensures
        forall|i: int| 0 <= i < 4 ==> is_within(#[trigger] r[i], area),
        area.y + area.height <= u16::MAX ==> fills(r, area),
        area.y + area.height <= u16::MAX && (least <= i16::MAX || first + second + least + last
            <= area.height) ==> {
            &&& r[0].height <= first
            &&& r[1].height <= second
            &&& r[2].height == flexible_height(
                area.height as int,
                first + second + last,
                least as int,
            )
            &&& r[3].height <= last
        },
{
    let outer = Rect { x: area.x, y: area.y, width: area.width, height: area.height };
    let [a, b, c, d] = Layout::vertical([
        Constraint::Length(first),
        Constraint::Length(second),
        Constraint::Min(least),
        Constraint::Length(last),
    ]).areas(outer);
    [
        Area { x: a.x, y: a.y, width: a.width, height: a.height },
        Area { x: b.x, y: b.y, width: b.width, height: b.height },
        Area { x: c.x, y: c.y, width: c.width, height: c.height },
        Area { x: d.x, y: d.y, width: d.width, height: d.height },
    ]
}

/// The rows of the panel lie in its rectangle `inner` and, where that is on the
/// screen, take it up from top to bottom: one line at most for the input, for
/// the divider and for the footer, and for the list the lines that these leave,
/// but the first line at any rate.
pub open spec fn rows_fit(inner: Area, rows: [Area; 4]) -> bool {
    &&& forall|i: int| 0 <= i < 4 ==> is_within(#[trigger] rows[i], inner)
    &&& inner.y + inner.height <= u16::MAX ==> {
        &&& fills(rows, inner)
        &&& rows[0].height <= 1
        &&& rows[1].height <= 1
        &&& rows[2].height == flexible_height(inner.height as int, 3, 1)
        &&& rows[3].height <= 1
    }
}

/// The panel in the rectangle `outer` with its rows in `rows`.
pub open spec fn panel_of(
    outer: Area,
    rows: [Area; 4],
    draft: Seq<char>,
    cursor: int,
    j: jump::JumpView,
) -> PanelView {
    PanelView {
        outer,
        border: Tone { fg: Some(Role::Border), bg: Some(Role::Panel), bold: false },
        title: title_line(),
        tone: Tone { fg: None, bg: Some(Role::Panel), bold: false },
        input: PlacedView {
            area: rows[0],
            lines: seq![input_line(draft, cursor, j.hits.len())],
            tone: panel_tone(),
        },
        divider: PlacedView {
            area: rows[1],
            lines: seq![divider_line(rows[1].width as nat)],
            tone: panel_tone(),
        },
        list: PlacedView {
            area: rows[2],
            lines: list_lines(j, rows[2].height as int),
            tone: panel_tone(),
        },
        footer: PlacedView { area: rows[3], lines: seq![footer_line()], tone: panel_tone() },
    }
}

fn one_line(area: Area, line: StyledLine) -> (r: Placed)
    ensures
        r@ == (PlacedView { area, lines: seq![line@], tone: panel_tone() }),
{
    let mut lines: Vec<StyledLine> = Vec::new();
    lines.push(line);
    let r = Placed { area, lines, tone: ground() };
    proof {
        assert(line_views(r.lines@) =~= seq![line@]);
    }
    r
}

/// The panel in the rectangle `outer` with its rows in `rows`.
pub fn lay_out(outer: Area, rows: [Area; 4], app: &App) -> (r: Panel)
    requires
        app.jump.wf(),
    ensures
        r@ == panel_of(
            outer,
            rows,
            app.draft.text@,
            app.draft.cursor as int,
            app.jump@,
        ),
{
    let matches: usize = app.jump.hits().len();
    let height: usize = rows[2].height as usize;
    Panel {
        outer,
        border: Tone { fg: Some(Role::Border), bg: Some(Role::Panel), bold: false },
        title: title(),
        tone: Tone { fg: None, bg: Some(Role::Panel), bold: false },
        input: one_line(rows[0], input_of(app.draft.text(), app.draft.cursor(), matches)),
        divider: one_line(rows[1], divider(rows[1].width)),
        list: Placed { area: rows[2], lines: list_of(app, height), tone: ground() },
        footer: one_line(rows[3], footer()),
    }
}

/// The panel of the jump overlay in a rectangle of the screen. Where its rows
/// go is exact as long as the rectangle has room for one line each; with less
/// room the list has a line before the others have.
pub fn render(area: Area, app: &App) -> (r: Panel)
    requires
        app.jump.wf(),
    ensures
        exists|rows: [Area; 4]|
            rows_fit(within_border(area), rows) && r@ == #[trigger] panel_of(
                area,
                rows,
                app.draft.text@,
                app.draft.cursor as int,
                app.jump@,
            ),
{
    let inner: Area = inside_border(area);
    let rows: [Area; 4] = split_rows(inner, 1, 1, 1, 1);
    lay_out(area, rows, app)
}

} // verus!
