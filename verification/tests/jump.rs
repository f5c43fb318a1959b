use tuxemdo::jump::{JumpCandidate, JumpState};
use tuxemdo::types::Mode;

fn task(target: usize, label: &str, area: &str) -> JumpCandidate {
    JumpCandidate {
        target,
        label: label.into(),
        area: area.into(),
        is_area: false,
    }
}

fn opened(candidates: Vec<JumpCandidate>) -> JumpState {
    let mut s = JumpState::default();
    s.open(Mode::Normal, candidates);
    s
}

#[test]
fn empty_query_keeps_every_candidate_in_order() {
    let s = opened(vec![task(0, "a", ""), task(1, "b", "")]);
    assert_eq!(s.hits().len(), 2);
    assert_eq!(s.current_target(), Some(0));
}

#[test]
fn fuzzy_query_filters_to_the_match() {
    let mut s = opened(vec![
        task(0, "Call dentist", "health"),
        task(2, "Buy milk", "shop"),
    ]);
    s.refresh("milk");
    assert_eq!(s.hits().len(), 1);
    assert_eq!(s.current_target(), Some(2));
}

#[test]
fn query_matches_the_source_area_too() {
    let mut s = opened(vec![
        task(0, "Call dentist", "health"),
        task(2, "Buy milk", "shop"),
    ]);
    s.refresh("health");
    assert_eq!(s.current_target(), Some(0));
}

#[test]
fn step_wraps_and_no_match_is_safe() {
    let mut s = opened(vec![task(0, "a", ""), task(1, "b", "")]);
    s.step(-1);
    assert_eq!(s.current_target(), Some(1)); // wrapped to last
    s.refresh("zzz");
    assert!(s.hits().is_empty());
    assert_eq!(s.current_target(), None);
    s.step(1); // must not panic on empty
}

#[test]
fn tighter_matches_rank_first_then_shorter_labels() {
    let mut s = opened(vec![
        task(0, "m-i-l-k", ""),
        task(1, "the milk today", ""),
        task(2, "milk", ""),
        task(3, "milk!", ""),
    ]);
    s.refresh("MILK");
    let cands: Vec<usize> = s.hits().iter().map(|h| h.cand).collect();
    assert_eq!(cands, vec![2, 3, 1, 0]);
    assert_eq!(s.hits()[2].positions, vec![4, 5, 6, 7]);
}

#[test]
fn equal_matches_keep_their_order() {
    let mut s = opened(vec![task(7, "bx", ""), task(8, "by", ""), task(9, "bz", "")]);
    s.refresh("b");
    let cands: Vec<usize> = s.hits().iter().map(|h| h.cand).collect();
    assert_eq!(cands, vec![0, 1, 2]);
    assert_eq!(s.current_target(), Some(7));
}

#[test]
fn a_match_through_the_area_highlights_nothing_in_the_label() {
    let mut s = opened(vec![task(0, "Call dentist", "health")]);
    s.refresh("health");
    assert_eq!(s.hits().len(), 1);
    assert!(s.hits()[0].positions.is_empty());
}

#[test]
fn offsets_are_bytes() {
    let mut s = opened(vec![task(0, "caf\u{e9} au lait", "")]);
    s.refresh("au");
    // "caf" takes three bytes and the accented letter two; the first "a" is in "caf".
    assert_eq!(s.hits()[0].positions, vec![1, 7]);
}

#[test]
fn a_new_query_goes_back_to_the_first_hit() {
    let mut s = opened(vec![task(0, "ab", ""), task(1, "ac", ""), task(2, "ad", "")]);
    s.step(2);
    assert_eq!(s.cursor, 2);
    s.refresh("a");
    assert_eq!(s.cursor, 0);
    assert_eq!(s.cursor(), 0);
}

#[test]
fn stepping_back_undoes_a_step() {
    let mut s = opened(vec![task(0, "a", ""), task(1, "b", ""), task(2, "c", "")]);
    s.step(5);
    assert_eq!(s.current_target(), Some(2));
    s.step(-5);
    assert_eq!(s.current_target(), Some(0));
}

#[test]
fn the_prior_mode_is_kept() {
    let mut s = JumpState::default();
    s.open(Mode::Search, vec![task(0, "a", "")]);
    assert_eq!(s.prior_mode(), Mode::Search);
    assert_eq!(s.take_prior(), Mode::Search);
    assert_eq!(s.candidate(0).label, "a");
}

#[test]
fn a_cursor_past_the_hits_has_no_target() {
    let mut s = opened(vec![task(0, "a", "")]);
    s.cursor = 4;
    assert_eq!(s.current_target(), None);
}

#[test]
fn the_highlight_can_be_set() {
    let mut s = opened(vec![task(4, "a", ""), task(5, "b", "")]);
    s.set_cursor(1);
    assert_eq!(s.cursor(), 1);
    assert_eq!(s.current_target(), Some(5));
}
