use ablations::histograms::{
    candidate_histogram, find_histogram, gen_all_histograms, histogram_scoring_applies, MAX_HIST_TABLES,
};

#[test]
fn histograms_in_lexicographic_order() {
    assert_eq!(gen_all_histograms(2, 2, 10), vec![vec![0, 2], vec![1, 1], vec![2, 0]]);
    assert_eq!(gen_all_histograms(0, 3, 10), vec![vec![0, 0, 0]]);
    assert_eq!(gen_all_histograms(4, 1, 10), vec![vec![4]]);
}

#[test]
fn three_by_three_grid_with_three_colours_has_55_histograms() {
    let all = gen_all_histograms(9, 3, MAX_HIST_TABLES + 1);
    assert_eq!(all.len(), 55);
    assert!(all.iter().all(|h| h.len() == 3 && h.iter().sum::<usize>() == 9));
}

#[test]
fn histogram_enumeration_stops_after_max_plus_one() {
    let all = gen_all_histograms(3, 3, 4);
    assert_eq!(all.len(), 5);
    assert_eq!(all, gen_all_histograms(3, 3, 100)[..5].to_vec());
    assert_eq!(gen_all_histograms(3, 3, 100).len(), 10);
}

#[test]
fn candidate_histogram_counts_indices() {
    assert_eq!(candidate_histogram(&[0, 2, 2, 1, 2], 4), vec![1, 1, 3, 0]);
    assert_eq!(candidate_histogram(&[], 2), vec![0, 0]);
}

#[test]
fn find_histogram_locates_a_candidates_table() {
    let all = gen_all_histograms(4, 2, 100);
    let hist = candidate_histogram(&[1, 0, 1, 1], 2);
    assert_eq!(find_histogram(&all, &hist), Some(1));
    assert_eq!(find_histogram(&all, &vec![5, 5]), None);
}

#[test]
fn histogram_scoring_threshold() {
    assert!(histogram_scoring_applies(true, 55));
    assert!(histogram_scoring_applies(true, 2000));
    assert!(!histogram_scoring_applies(true, 2001));
    assert!(!histogram_scoring_applies(false, 55));
}
