use ablations::baselines::{
    match_count_table, predict_cell_modes, solve_m7, training_transitions, transition_count_table,
};
use ablations::task::{adjacency_pairs, used_colors, ArcTask, Grid, Pair};

fn grid(h: usize, w: usize, data: Vec<i32>) -> Grid {
    Grid { h, w, data }
}

fn recolour_task(test_output: Vec<i32>) -> ArcTask {
    // Colour 1 becomes 2, colour 0 stays 0.
    ArcTask {
        name: "r".to_string(),
        train: vec![
            Pair { input: grid(1, 2, vec![1, 0]), output: grid(1, 2, vec![2, 0]) },
            Pair { input: grid(1, 2, vec![0, 1]), output: grid(1, 2, vec![0, 2]) },
        ],
        test_input: grid(1, 3, vec![1, 1, 0]),
        test_output: grid(1, 3, test_output),
    }
}

#[test]
fn m7_predicts_most_common_output_colour() {
    let t = recolour_task(vec![2, 2, 0]);
    assert_eq!(predict_cell_modes(&t), vec![2, 2, 0]);
    let r = solve_m7(&t);
    assert!(r.solved);
    assert_eq!(r.rank, 1);
    assert_eq!(r.n_candidates, 1);
    assert_eq!(r.total_trans, 0);
}

#[test]
fn m7_fails_when_prediction_differs() {
    let r = solve_m7(&recolour_task(vec![2, 2, 1]));
    assert!(!r.solved);
    assert_eq!(r.rank, u64::MAX);
}

#[test]
fn m7_ties_and_unseen_colours_go_to_highest_colour() {
    let t = ArcTask {
        name: "tie".to_string(),
        train: vec![
            Pair { input: grid(1, 2, vec![4, 4]), output: grid(1, 2, vec![3, 6]) },
            Pair { input: grid(1, 1, vec![4]), output: grid(1, 1, vec![-2]) },
        ],
        test_input: grid(1, 2, vec![4, 5]),
        test_output: grid(1, 2, vec![6, 9]),
    };
    // colour 4 maps to 3 once and to 6 once: the tie goes to 6;
    // colour 5 never occurs, every count is 0: the last colour, 9, wins.
    assert_eq!(predict_cell_modes(&t), vec![6, 9]);
    assert!(solve_m7(&t).solved);
}

#[test]
fn m6_counts_colour_transitions_of_adjacent_cells() {
    let t = recolour_task(vec![2, 2, 0]);
    let used = used_colors(&t);
    assert_eq!(used, vec![0, 1, 2]);
    let adj = adjacency_pairs(1, 3);
    let table = transition_count_table(&t, &used, &adj);
    let nc = used.len();
    assert_eq!(table.len(), adj.len() * nc * nc);
    // First pair of test cells: input colours (1, 1), never adjacent in training.
    assert!(table[..nc * nc].iter().all(|&c| c == 0));
    // Second pair: input colours (1, 0); training shows (1 -> 2, 0 -> 0) once.
    let base = nc * nc;
    assert_eq!(table[base + 2 * nc + 0], 1);
    assert_eq!(table[base..2 * base].iter().sum::<u32>(), 1);
}

#[test]
fn training_transitions_in_adjacency_order() {
    let t = recolour_task(vec![2, 2, 0]);
    assert_eq!(training_transitions(&t), vec![(1, 2, 0, 0), (0, 0, 1, 2)]);
}

#[test]
fn m5_counts_shared_one_hot_blocks() {
    let t = recolour_task(vec![2, 2, 0]);
    let used = used_colors(&t);
    let adj = adjacency_pairs(1, 3);
    let refs = training_transitions(&t);
    let table = match_count_table(&t, &used, &adj, &refs);
    let nc = used.len();
    assert_eq!(table.len(), adj.len() * nc * nc);
    // Test pair 0: inputs (1, 1). Candidate colours (2, 0): against (1,2,0,0)
    // blocks in_a and out_a and out_b match (3); against (0,0,1,2) in_b
    // matches (1).
    assert_eq!(table[2 * nc + 0], 4);
    // Test pair 1: inputs (1, 0). Candidate colours (2, 0) match (1,2,0,0)
    // in all four blocks and nothing of (0,0,1,2).
    assert_eq!(table[nc * nc + 2 * nc + 0], 4);
    // Candidate colours (0, 0) on test pair 1: (1,2,0,0) shares in_a, in_b,
    // out_b (3); (0,0,1,2) shares out_a (1).
    assert_eq!(table[nc * nc + 0], 4);
    // Candidate colours (1, 1) on test pair 1: (1,2,0,0) shares in_a, in_b (2);
    // (0,0,1,2) shares nothing.
    assert_eq!(table[nc * nc + 1 * nc + 1], 2);
}
