use tuxemdo::jump::JumpCandidate;
use tuxemdo::panel::{
    decimal_of, draft_cursor_spans, lay_out, render, render_row, Area, Panel, Role, StyledLine,
    Tone,
};
use tuxemdo::path::TreePath;
use tuxemdo::tree::TreeStore;
use tuxemdo::types::Mode;
use tuxemdo::visibility::App;

fn app() -> App {
    let file = TreePath {
        parts: vec!["todo.md".to_string()],
    };
    App::new(TreeStore::open_file(
        file,
        "a\n".into(),
        "2026-05-06".into(),
    ))
}

fn cand(target: usize, label: &str, area: &str, is_area: bool) -> JumpCandidate {
    JumpCandidate {
        target,
        label: label.into(),
        area: area.into(),
        is_area,
    }
}

fn text(line: &StyledLine) -> String {
    line.segments.iter().map(|s| s.text.as_str()).collect()
}

fn area(x: u16, y: u16, width: u16, height: u16) -> Area {
    Area {
        x,
        y,
        width,
        height,
    }
}

fn numbered(n: usize) -> App {
    let mut app = app();
    let cands = (0..n)
        .map(|i| cand(i, &format!("task {i}"), "", false))
        .collect();
    app.jump.open(Mode::Normal, cands);
    app
}

fn shown(p: &Panel) -> Vec<String> {
    p.list.lines.iter().map(text).collect()
}

#[test]
fn the_rows_stand_inside_the_border() {
    let p = render(area(2, 3, 30, 12), &app());
    assert_eq!(p.outer, area(2, 3, 30, 12));
    assert_eq!(p.input.area, area(3, 4, 28, 1));
    assert_eq!(p.divider.area, area(3, 5, 28, 1));
    assert_eq!(p.list.area, area(3, 6, 28, 7));
    assert_eq!(p.footer.area, area(3, 13, 28, 1));
}

#[test]
fn the_smallest_panel_with_room_for_every_row() {
    let p = render(area(0, 0, 4, 6), &app());
    assert_eq!(p.input.area, area(1, 1, 2, 1));
    assert_eq!(p.divider.area, area(1, 2, 2, 1));
    assert_eq!(p.list.area, area(1, 3, 2, 1));
    assert_eq!(p.footer.area, area(1, 4, 2, 1));
}

#[test]
fn a_tall_panel_at_the_far_edge() {
    let p = render(area(65000, 60000, 500, 5535), &app());
    assert_eq!(p.input.area, area(65001, 60001, 498, 1));
    assert_eq!(p.list.area, area(65001, 60003, 498, 5530));
    assert_eq!(p.footer.area, area(65001, 65533, 498, 1));
}

#[test]
fn the_rows_are_exact_at_every_height() {
    let app = app();
    for (y, height) in (6..160)
        .map(|h| (h * 7, h))
        .chain((0..40).map(|i| (i * 3, 1000 + i * 1511)))
    {
        let p = render(area(3, y, 9, height), &app);
        assert_eq!(p.input.area, area(4, y + 1, 7, 1));
        assert_eq!(p.divider.area, area(4, y + 2, 7, 1));
        assert_eq!(p.list.area, area(4, y + 3, 7, height - 5));
        assert_eq!(p.footer.area, area(4, y + height - 2, 7, 1));
    }
}

#[test]
fn a_panel_without_room_leaves_the_list_a_line() {
    let app = numbered(3);
    for y in (0..300).chain((0..60).map(|i| i * 1091)) {
        for height in 0..6 {
            let p = render(area(7, y, 20, height), &app);
            let top = if height == 0 { y } else { y + 1 };
            let inside = height.saturating_sub(2);
            let mut line = top;
            for placed in [&p.input, &p.divider, &p.list, &p.footer] {
                assert_eq!((placed.area.x, placed.area.width), (8, 18));
                assert_eq!(placed.area.y, line);
                assert!(placed.area.height <= 1);
                line += placed.area.height;
            }
            assert_eq!(line, top + inside);
            assert_eq!(p.list.area.height, inside.min(1));
            if inside > 0 {
                assert_eq!(shown(&p), vec![" ▶ task 0"]);
            }
        }
    }
}

#[test]
fn an_empty_rectangle_stays_where_it_is() {
    let p = render(area(5, 5, 0, 10), &app());
    assert_eq!(p.input.area.x, 5);
    assert_eq!(p.input.area.width, 0);
    let q = render(area(5, 5, 1, 10), &app());
    assert_eq!(q.input.area.x, 6);
    assert_eq!(q.input.area.width, 0);
}

#[test]
fn the_title_and_the_footer() {
    let p = render(area(0, 0, 40, 10), &app());
    assert_eq!(text(&p.title), " tuxemdo · jump ");
    assert_eq!(
        text(&p.footer.lines[0]),
        "  ↑↓ / Ctrl-N/P · type text/folder, or a number · Enter jump · Esc cancel"
    );
    assert_eq!(p.title.segments[1].tone.fg, Some(Role::Accent));
    assert!(p.title.segments[1].tone.bold);
}

#[test]
fn the_divider_is_as_wide_as_its_row() {
    let p = render(area(0, 0, 12, 10), &app());
    assert_eq!(text(&p.divider.lines[0]), "──────────");
}

#[test]
fn the_summary_counts_matches_or_names_a_row() {
    let mut app = numbered(12);
    let whole = area(0, 0, 40, 10);
    let input = |app: &App| text(&render(whole, app).input.lines[0]);
    assert_eq!(input(&app), " >  ");
    app.draft_set("tas".into());
    app.jump.refresh("tas");
    assert_eq!(input(&app), " > tas   12 matches");
    app.draft_set("42".into());
    app.jump.refresh("42");
    assert_eq!(input(&app), " > 42   → row 42");
}

#[test]
fn no_hits_say_so() {
    let mut app = numbered(3);
    app.jump.refresh("zzz");
    let p = render(area(0, 0, 40, 10), &app);
    assert_eq!(shown(&p), vec!["  no matches"]);
}

#[test]
fn the_window_follows_the_cursor() {
    let mut app = numbered(10);
    let rows = [
        area(0, 0, 20, 1),
        area(0, 1, 20, 1),
        area(0, 2, 20, 3),
        area(0, 5, 20, 1),
    ];
    let outer = area(0, 0, 20, 6);
    let p = lay_out(outer, rows, &app);
    assert_eq!(shown(&p), vec![" ▶ task 0", "   task 1", "   task 2"]);
    app.jump.step(4);
    let p = lay_out(outer, rows, &app);
    assert_eq!(shown(&p), vec!["   task 2", "   task 3", " ▶ task 4"]);
    app.jump.cursor = 99;
    let p = lay_out(outer, rows, &app);
    assert_eq!(shown(&p), vec!["   task 7", "   task 8", " ▶ task 9"]);
}

#[test]
fn a_list_without_height_shows_no_hit() {
    let app = numbered(2);
    let flat = area(0, 0, 20, 0);
    let p = lay_out(flat, [flat, flat, flat, flat], &app);
    assert!(p.list.lines.is_empty());
}

#[test]
fn a_row_highlights_the_matched_characters() {
    let line = render_row(&cand(0, "Buy milk", "shop", false), &vec![0, 4, 5], false);
    let parts: Vec<&str> = line.segments.iter().map(|s| s.text.as_str()).collect();
    assert_eq!(parts, vec!["   ", "shop/ ", "B", "uy ", "m", "i", "lk"]);
    let hit = Tone {
        fg: Some(Role::Bg),
        bg: Some(Role::Matched),
        bold: true,
    };
    let marked: Vec<bool> = line.segments.iter().map(|s| s.tone == hit).collect();
    assert_eq!(marked, vec![false, false, true, false, true, true, false]);
}

#[test]
fn a_row_cuts_at_characters_of_several_bytes() {
    let label = "é→x";
    let line = render_row(&cand(0, label, "", false), &vec![2, 5], true);
    let parts: Vec<&str> = line.segments.iter().map(|s| s.text.as_str()).collect();
    assert_eq!(parts, vec![" ▶ ", "é", "→", "x"]);
    assert_eq!(text(&line), " ▶ é→x");
    assert_eq!(line.tone.bg, Some(Role::Cursor));
}

#[test]
fn offsets_out_of_order_count_for_nothing() {
    let line = render_row(&cand(0, "abc", "", false), &vec![1, 0, 1], false);
    let parts: Vec<&str> = line.segments.iter().map(|s| s.text.as_str()).collect();
    assert_eq!(parts, vec!["   ", "a", "b", "c"]);
}

#[test]
fn a_folder_row_is_its_name() {
    let line = render_row(&cand(0, "home/", "", true), &vec![0], true);
    let parts: Vec<&str> = line.segments.iter().map(|s| s.text.as_str()).collect();
    assert_eq!(parts, vec![" ▶ ", "home/"]);
    assert_eq!(line.segments[1].tone.fg, Some(Role::Accent));
}

#[test]
fn the_cursor_is_drawn_in_reverse() {
    let spans = draft_cursor_spans("abc", 1);
    let parts: Vec<&str> = spans.iter().map(|s| s.text.as_str()).collect();
    assert_eq!(parts, vec!["a", "b", "c"]);
    assert_eq!(spans[1].tone.bg, Some(Role::Fg));
    let spans = draft_cursor_spans("abc", 3);
    let parts: Vec<&str> = spans.iter().map(|s| s.text.as_str()).collect();
    assert_eq!(parts, vec!["abc", " "]);
}

#[test]
fn numbers_are_written_in_decimal() {
    let written = |n: usize| decimal_of(n).into_iter().collect::<String>();
    assert_eq!(written(0), "0");
    assert_eq!(written(9), "9");
    assert_eq!(written(10), "10");
    assert_eq!(written(90210), "90210");
}

#[test]
fn offsets_past_the_label_count_for_nothing() {
    let parts = |line: &StyledLine| -> Vec<String> {
        line.segments.iter().map(|s| s.text.clone()).collect()
    };
    let line = render_row(&cand(0, "ab", "", false), &vec![7, 1, 2], false);
    assert_eq!(parts(&line), vec!["   ", "a", "b"]);
    let line = render_row(&cand(0, "", "", false), &vec![0], false);
    assert_eq!(parts(&line), vec!["   "]);
    // An offset inside a character that was highlighted already.
    let line = render_row(&cand(0, "éa", "", false), &vec![0, 1, 2], false);
    assert_eq!(parts(&line), vec!["   ", "é", "a"]);
    // Offsets of a folder are not looked at.
    let line = render_row(&cand(0, "é/", "", true), &vec![1, 7], false);
    assert_eq!(parts(&line), vec!["   ", "é/"]);
}
