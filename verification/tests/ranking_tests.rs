use ablations::random::{pick_four, projection_seed, random_candidate, transversal_seed};
use rand::SeedableRng;
use rand_chacha::ChaCha8Rng;
use ablations::ranking::{
    compact_columns,
    candidate_count, candidate_of_grid, exhaustive_rank, flat_to_indices, pipeline_sample_seed,
    reported_candidates, sample_seed,
};

#[test]
fn flat_to_indices_is_base_nc_most_significant_first() {
    let mut out = vec![9usize; 4];
    flat_to_indices(5, 2, 3, &mut out);
    assert_eq!(out, vec![1, 0, 1, 9]);
    let mut out3 = vec![0usize; 3];
    flat_to_indices(26, 3, 3, &mut out3);
    assert_eq!(out3, vec![2, 2, 2]);
    flat_to_indices(27, 3, 3, &mut out3);
    assert_eq!(out3, vec![0, 0, 0]);
}

#[test]
fn flat_to_indices_enumerates_every_candidate_once() {
    let mut seen = std::collections::HashSet::new();
    let mut out = vec![0usize; 3];
    for idx in 0..27u64 {
        flat_to_indices(idx, 3, 3, &mut out);
        assert!(out.iter().all(|&d| d < 3));
        let value = (out[0] * 9 + out[1] * 3 + out[2]) as u64;
        assert_eq!(value, idx);
        seen.insert(out.clone());
    }
    assert_eq!(seen.len(), 27);
}

#[test]
fn candidate_count_powers_and_saturates() {
    assert_eq!(candidate_count(3, 4), 81);
    assert_eq!(candidate_count(0, 0), 1);
    assert_eq!(candidate_count(0, 3), 0);
    assert_eq!(candidate_count(2, 63), 1u64 << 63);
    assert_eq!(candidate_count(2, 64), u64::MAX);
    assert_eq!(candidate_count(10, 30), u64::MAX);
}

#[test]
fn candidate_of_grid_maps_colours_to_indices() {
    let used = vec![0, 2, 5];
    assert_eq!(candidate_of_grid(&used, &[5, 0, 2, 2]), Some(vec![2, 0, 1, 1]));
    assert_eq!(candidate_of_grid(&used, &[5, 3]), None);
    assert_eq!(candidate_of_grid(&used, &[-4]), None);
    assert_eq!(candidate_of_grid(&used, &[]), Some(vec![]));
}

#[test]
fn reported_candidates_caps() {
    assert_eq!(reported_candidates(81), 81);
    assert_eq!(reported_candidates(u64::MAX), 2_000_000_000);
}

#[test]
fn exhaustive_rank_counts_better_candidates() {
    assert_eq!(exhaustive_rank(0), (1, true));
    assert_eq!(exhaustive_rank(4), (5, false));
}

#[test]
fn sample_seeds_wrap() {
    assert_eq!(sample_seed(1000, 3), 1003 * 6971);
    assert_eq!(sample_seed(u64::MAX, 1), 0);
    assert_eq!(pipeline_sample_seed(u64::MAX, 2), 1);
}

#[test]
fn projection_and_transversal_seeds() {
    assert_eq!(projection_seed(1000, 3), 31000 + 3 * 7919);
    assert_eq!(projection_seed(u64::MAX, 0), u64::MAX - 30);
    assert_eq!(transversal_seed(1000, 1, 2), (1000 + 43) * 997 + 2);
}

#[test]
fn pick_four_permutes_and_takes_prefix() {
    let mut rng = ChaCha8Rng::seed_from_u64(7);
    let mut idx: Vec<usize> = (0..10).collect();
    let four = pick_four(&mut idx, &mut rng);
    assert_eq!(&four[..], &idx[..4]);
    let mut sorted = idx.clone();
    sorted.sort();
    assert_eq!(sorted, (0..10).collect::<Vec<_>>());
    let mut f = four.to_vec();
    f.sort();
    f.dedup();
    assert_eq!(f.len(), 4);
}

#[test]
fn random_candidate_is_in_range_and_seeded() {
    let a = random_candidate(42, 3, 50);
    assert_eq!(a.len(), 50);
    assert!(a.iter().all(|&x| x < 3));
    assert_eq!(a, random_candidate(42, 3, 50));
    assert!(random_candidate(1, 1, 5).iter().all(|&x| x == 0));
    assert!(random_candidate(1, 0, 0).is_empty());
}

#[test]
fn compact_columns_keeps_listed_columns() {
    // 6 rows, 3 columns, row-major: entry (k, t) = 10 * k + t.
    let m: Vec<i32> = (0..6).flat_map(|k| (0..3).map(move |t| 10 * k + t)).collect();
    let kept = compact_columns(&m, 3, &[0, 2]);
    assert_eq!(kept, vec![0, 2, 10, 12, 20, 22, 30, 32, 40, 42, 50, 52]);
    assert_eq!(compact_columns(&m, 3, &[0, 1, 2]), m);
    assert_eq!(compact_columns(&m, 3, &[]), Vec::<i32>::new());
}
