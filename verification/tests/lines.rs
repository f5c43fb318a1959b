use tuxemdo::date::{add_days, add_months, date_rank, days_in_month, parse_date, write_date, Date};
use tuxemdo::draft::Draft;
use tuxemdo::filter::{due_bucket, list_predicate, sort_key, Filter, ListDueBucket};
use tuxemdo::order::listing;
use tuxemdo::path::TreePath;
use tuxemdo::search::subseq_match_ci;
use tuxemdo::text::{bytes_in, same_text, text_not_after};
use tuxemdo::todo::{parse_file, render_file, Task};
use tuxemdo::types::Sort;

fn chars(s: &str) -> Vec<char> {
    s.chars().collect()
}

fn day(s: &str) -> Date {
    parse_date(&chars(s)).unwrap()
}

fn written(d: Date) -> String {
    write_date(d).into_iter().collect()
}

fn one(s: &str) -> Task {
    parse_file(s).remove(0)
}

fn path(s: &str) -> TreePath {
    TreePath {
        parts: s.split('/').map(|p| p.to_string()).collect(),
    }
}

#[test]
fn a_line_says_what_its_parts_say() {
    let t = one("- [x] (B) 2026-05-02 2026-04-01 call home due:2026-05-10 t:2026-05-01\n");
    assert!(t.done);
    assert_eq!(t.priority, Some('B'));
    assert_eq!(t.done_date.as_deref(), Some("2026-05-02"));
    assert_eq!(t.body, "call home due:2026-05-10 t:2026-05-01");
    assert_eq!(written(t.due.unwrap()), "2026-05-10");
    assert_eq!(written(t.threshold.unwrap()), "2026-05-01");
}

#[test]
fn blank_lines_are_no_tasks_and_plain_text_is_one() {
    let tasks = parse_file("a\n\n   \n- [X] b\r\n\n- [ ] c");
    let raws: Vec<&str> = tasks.iter().map(|t| t.raw.as_str()).collect();
    assert_eq!(raws, vec!["- [ ] a", "- [x] b", "- [ ] c"]);
}

#[test]
fn a_written_file_reads_back() {
    let tasks = parse_file("(A) a due:2026-05-04\n- [x] 2026-05-01 b\n");
    let text = render_file(&tasks);
    assert_eq!(text, "- [ ] (A) a due:2026-05-04\n- [x] 2026-05-01 b\n");
    let again = parse_file(&text);
    assert_eq!(render_file(&again), text);
    assert_eq!(again.len(), 2);
}

#[test]
fn dates_are_checked_and_read_back() {
    assert!(parse_date(&chars("2026-02-29")).is_none());
    assert!(parse_date(&chars("2026-13-01")).is_none());
    assert!(parse_date(&chars("2026-5-01")).is_none());
    assert_eq!(written(day("2024-02-29")), "2024-02-29");
    assert_eq!(days_in_month(2024, 2), 29);
    assert_eq!(days_in_month(1900, 2), 28);
    assert_eq!(date_rank(day("2026-05-06")), 20260506);
}

#[test]
fn days_and_months_carry() {
    assert_eq!(written(add_days(day("2026-12-31"), 1).unwrap()), "2027-01-01");
    assert_eq!(written(add_days(day("2026-03-01"), -1).unwrap()), "2026-02-28");
    assert_eq!(written(add_months(day("2026-01-31"), 1).unwrap()), "2026-02-28");
    assert_eq!(written(add_months(day("2026-11-15"), 3).unwrap()), "2027-02-15");
}

#[test]
fn a_match_needs_every_character_in_order() {
    assert_eq!(subseq_match_ci("Call dentist", "CADE"), Some(vec![0, 1, 5, 6]));
    assert_eq!(subseq_match_ci("abc", "cb"), None);
    assert_eq!(subseq_match_ci("abc", ""), Some(Vec::new()));
    assert_eq!(subseq_match_ci("é→x", "X"), Some(vec![5]));
}

#[test]
fn the_predicate_joins_its_conditions() {
    let f = Filter::default();
    let t = one("- [x] 2026-05-01 pay +bills t:2026-06-01\n");
    assert!(list_predicate(&t, true, true, "2026-05-06", &f, None));
    assert!(!list_predicate(&t, false, true, "2026-05-06", &f, None));
    assert!(!list_predicate(&t, true, false, "2026-05-06", &f, None));
    assert!(list_predicate(&t, true, false, "2026-06-01", &f, None));
    assert!(list_predicate(&t, true, true, "2026-05-06", &f, Some("pb")));
    assert!(!list_predicate(&t, true, true, "2026-05-06", &f, Some("zz")));
}

#[test]
fn buckets_end_after_seven_and_fourteen_days() {
    let bucket = |s: &str| due_bucket(&one(s), "2026-05-06");
    assert_eq!(bucket("a due:2026-05-13\n"), ListDueBucket::ThisWeek);
    assert_eq!(bucket("a due:2026-05-14\n"), ListDueBucket::NextWeek);
    assert_eq!(bucket("a due:2026-05-20\n"), ListDueBucket::NextWeek);
    assert_eq!(bucket("a due:2026-05-21\n"), ListDueBucket::Later);
    assert_eq!(bucket("a due:soon\n"), ListDueBucket::NoDue);
}

#[test]
fn sort_keys_put_tasks_without_one_last() {
    let graded = one("(A) a due:2026-05-04\n");
    let bare = one("b\n");
    assert_eq!(sort_key(&graded, Sort::File), sort_key(&bare, Sort::File));
    assert_eq!(sort_key(&graded, Sort::Priority), 65);
    assert_eq!(sort_key(&graded, Sort::Due), 20260504);
    assert!(sort_key(&graded, Sort::Priority) < sort_key(&bare, Sort::Priority));
    assert!(sort_key(&graded, Sort::Due) < sort_key(&bare, Sort::Due));
}

#[test]
fn a_listing_is_stable() {
    let keep = vec![true, false, true, true];
    let keys: Vec<u64> = vec![2, 0, 1, 1];
    assert_eq!(listing(&keep, &keys), vec![2, 3, 0]);
}

#[test]
fn paths_by_components() {
    let p = path("a/b/c");
    assert!(p.starts_with(&path("a/b")));
    assert!(!p.starts_with(&path("a/bb")));
    assert!(p.below(&path("a")).same(&path("b/c")));
    assert!(p.below(&path("x")).same(&p));
    assert!(p.parent().unwrap().same(&path("a/b")));
    assert!(TreePath::new().parent().is_none());
    assert!(path("a").join("b").same(&path("a/b")));
}

#[test]
fn texts_by_code_point_and_bytes() {
    assert!(text_not_after("", "a"));
    assert!(text_not_after("abc", "abd"));
    assert!(!text_not_after("b", "abc"));
    assert!(same_text("é", "é"));
    assert!(!same_text("é", "e"));
    assert_eq!(bytes_in("é→x"), 6);
}

#[test]
fn a_draft_starts_with_its_cursor_at_the_end() {
    let mut d = Draft::default();
    assert_eq!((d.text(), d.cursor()), ("", 0));
    d.set("é→x".into());
    assert_eq!((d.text(), d.cursor()), ("é→x", 3));
}
