use ctclib::{add_candidate, combine, log_add, select_targets, sort_states, top_k_by_score, DecoderState};

fn state(score: i64, token: i32, prev_blank: bool, parent_index: isize) -> DecoderState {
    DecoderState { score, token, prev_blank, am_score: score, lm_score: 0, parent_index }
}

#[test]
fn log_add_of_equal_scores_adds_ln_two() {
    // Tied scores must combine smoothly: 1000 millinats twice is 1693.
    assert_eq!(log_add(1000, 1000), 1693);
    assert_eq!(log_add(0, 0), 693);
    assert_eq!(log_add(-5000, -5000), -4307);
}

#[test]
fn log_add_is_commutative_and_dominated_by_the_larger_score() {
    assert_eq!(log_add(500, 400), log_add(400, 500));
    assert!(log_add(500, 400) >= 500);
    assert_eq!(log_add(500, 400), 500 + 693);
    assert_eq!(log_add(0, -2000), 127);
    // A score far below the other contributes nothing.
    assert_eq!(log_add(0, -20000), 0);
}

#[test]
fn top_k_keeps_small_inputs_unchanged() {
    let pairs = vec![(5i64, 0usize), (1, 1), (9, 2)];
    let r = top_k_by_score(pairs.clone(), 3);
    assert_eq!(r, pairs);
    let r = top_k_by_score(pairs, 10);
    assert_eq!(r.len(), 3);
}

#[test]
fn top_k_selects_the_highest_scores() {
    let pairs = vec![(5i64, 0usize), (1, 1), (9, 2), (3, 3)];
    let r = top_k_by_score(pairs, 2);
    assert_eq!(r.len(), 2);
    let mut idx: Vec<usize> = r.iter().map(|p| p.1).collect();
    idx.sort();
    assert_eq!(idx, vec![0, 2]);
}

#[test]
fn select_targets_is_a_no_op_when_the_vocabulary_fits() {
    let data: Vec<i64> = vec![10, 20, 30, 40, 5, 6, 7, 8];
    let r = select_targets(&data, 1, 2, 4, 10);
    assert_eq!(r, vec![(5i64, 0usize), (6, 1), (7, 2), (8, 3)]);
}

#[test]
fn select_targets_keeps_the_top_scoring_tokens() {
    let data: Vec<i64> = vec![10, 40, 30, 20];
    let r = select_targets(&data, 0, 1, 4, 2);
    assert_eq!(r.len(), 2);
    let mut idx: Vec<usize> = r.iter().map(|p| p.1).collect();
    idx.sort();
    assert_eq!(idx, vec![1, 2]);
    assert!(r.iter().all(|p| p.0 == data[p.1]));
}

#[test]
fn add_candidate_tracks_the_best_and_prunes_below_the_margin() {
    let mut out: Vec<DecoderState> = Vec::new();
    let mut best: i64 = -1_000_000_000;
    add_candidate(&mut out, &mut best, 500, state(0, 1, false, 0));
    assert_eq!(best, 0);
    assert_eq!(out.len(), 1);
    // 600 below the best, margin 500: dropped.
    add_candidate(&mut out, &mut best, 500, state(-600, 2, false, 0));
    assert_eq!(best, 0);
    assert_eq!(out.len(), 1);
    // Exactly at the margin: kept.
    add_candidate(&mut out, &mut best, 500, state(-500, 3, false, 0));
    assert_eq!(out.len(), 2);
    assert_eq!(out[1].token, 3);
}

#[test]
fn add_candidate_with_zero_margin_keeps_ties_for_the_max() {
    let mut out: Vec<DecoderState> = Vec::new();
    let mut best: i64 = -1_000_000_000;
    add_candidate(&mut out, &mut best, 0, state(100, 1, false, 0));
    add_candidate(&mut out, &mut best, 0, state(100, 2, false, 0));
    assert_eq!(out.len(), 2);
    assert_eq!(best, 100);
}

#[test]
fn combine_merges_scores_and_follows_the_running_maximum() {
    let low = state(100, 7, false, 3);
    let high = state(400, 7, false, 5);
    let merged = combine(low, high);
    assert_eq!(merged.score, log_add(100, 400));
    assert!(merged.score >= 400);
    assert_eq!(merged.parent_index, 5);
    assert_eq!(merged.token, 7);
    // The other way round the score agrees and the parent still follows
    // the larger raw score.
    let merged2 = combine(high, low);
    assert_eq!(merged2.score, merged.score);
    assert_eq!(merged2.parent_index, 5);
}

#[test]
fn sort_states_groups_equal_patterns_in_score_order() {
    let mut v = vec![
        state(5, 2, false, 0),
        state(9, 1, true, 1),
        state(1, 2, false, 2),
        state(3, 1, false, 3),
    ];
    sort_states(&mut v);
    assert_eq!(v.len(), 4);
    assert_eq!((v[0].token, v[0].prev_blank, v[0].score), (1, false, 3));
    assert_eq!((v[1].token, v[1].prev_blank, v[1].score), (1, true, 9));
    assert_eq!((v[2].token, v[2].prev_blank, v[2].score), (2, false, 1));
    assert_eq!((v[3].token, v[3].prev_blank, v[3].score), (2, false, 5));
}

#[test]
fn decode_begin_yields_only_the_root() {
    let row = ctclib::decode_begin(4);
    assert_eq!(row.len(), 1);
    assert_eq!(row[0].token, 4);
    assert_eq!(row[0].score, 0);
    assert_eq!(row[0].am_score, 0);
    assert_eq!(row[0].lm_score, 0);
    assert!(!row[0].prev_blank);
    assert_eq!(row[0].parent_index, -1);
}
