use ablations::task::{
    adjacency_pairs, color_index_table, color_to_idx, lookup_color, task_from_raw, used_colors,
    ArcTask, Grid, Pair, RawPair, RawTask, TaskError,
};

fn grid(h: usize, w: usize, data: Vec<i32>) -> Grid {
    Grid { h, w, data }
}

fn small_task() -> ArcTask {
    ArcTask {
        name: "t".to_string(),
        train: vec![
            Pair { input: grid(1, 2, vec![1, 2]), output: grid(1, 2, vec![3, 3]) },
            Pair { input: grid(1, 2, vec![0, 12]), output: grid(1, 2, vec![-1, 5]) },
        ],
        test_input: grid(1, 2, vec![7, 7]),
        test_output: grid(1, 2, vec![9, 8]),
    }
}

#[test]
fn from_raw_concatenates_rows() {
    let raw = vec![vec![1, 2, 3], vec![4, 5, 6]];
    let g = Grid::from_raw(&raw);
    assert_eq!(g.h, 2);
    assert_eq!(g.w, 3);
    assert_eq!(g.data, vec![1, 2, 3, 4, 5, 6]);
}

#[test]
fn from_raw_takes_width_from_first_row() {
    let raw = vec![vec![1, 2], vec![3, 4, 5]];
    let g = Grid::from_raw(&raw);
    assert_eq!(g.w, 2);
    assert_eq!(g.data, vec![1, 2, 3, 4, 5]);
    let empty = Grid::from_raw(&[]);
    assert_eq!((empty.h, empty.w, empty.data.len()), (0, 0, 0));
}

#[test]
fn get_reads_row_major() {
    let g = grid(2, 3, vec![1, 2, 3, 4, 5, 6]);
    assert_eq!(g.get(0, 0), 1);
    assert_eq!(g.get(1, 0), 4);
    assert_eq!(g.get(1, 2), 6);
}

#[test]
fn same_size_checks_every_pair() {
    let t = small_task();
    assert!(t.is_same_size());
    let mut bad = small_task();
    bad.train[1].output = grid(2, 1, vec![1, 1]);
    assert!(!bad.is_same_size());
    let mut bad_test = small_task();
    bad_test.test_output = grid(1, 3, vec![1, 1, 1]);
    assert!(!bad_test.is_same_size());
}

fn raw_pair(input: Vec<Vec<i32>>, output: Vec<Vec<i32>>) -> RawPair {
    RawPair { input, output }
}

#[test]
fn task_from_raw_refuses_short_files() {
    let one = RawTask {
        train: vec![raw_pair(vec![vec![1]], vec![vec![2]])],
        test: vec![raw_pair(vec![vec![1]], vec![vec![2]])],
    };
    assert_eq!(task_from_raw("a".to_string(), &one).unwrap_err(), TaskError::TooFewTrainPairs);
    let no_test = RawTask {
        train: vec![raw_pair(vec![vec![1]], vec![vec![2]]), raw_pair(vec![vec![3]], vec![vec![4]])],
        test: vec![],
    };
    assert_eq!(task_from_raw("a".to_string(), &no_test).unwrap_err(), TaskError::NoTestPairs);
    let neither = RawTask { train: vec![], test: vec![] };
    assert_eq!(task_from_raw("a".to_string(), &neither).unwrap_err(), TaskError::TooFewTrainPairs);
}

#[test]
fn task_from_raw_keeps_first_test_pair() {
    let raw = RawTask {
        train: vec![
            raw_pair(vec![vec![1, 2]], vec![vec![2, 1]]),
            raw_pair(vec![vec![3], vec![4]], vec![vec![4], vec![3]]),
        ],
        test: vec![
            raw_pair(vec![vec![5, 6]], vec![vec![6, 5]]),
            raw_pair(vec![vec![7]], vec![vec![8]]),
        ],
    };
    let t = task_from_raw("abc".to_string(), &raw).unwrap();
    assert_eq!(t.name, "abc");
    assert_eq!(t.train.len(), 2);
    assert_eq!((t.train[1].input.h, t.train[1].input.w), (2, 1));
    assert_eq!(t.train[1].output.data, vec![4, 3]);
    assert_eq!(t.test_input.data, vec![5, 6]);
    assert_eq!(t.test_output.data, vec![6, 5]);
}

#[test]
fn task_error_messages() {
    assert_eq!(TaskError::TooFewTrainPairs.message(), "fewer than 2 training pairs");
    assert_eq!(TaskError::NoTestPairs.message(), "no test pairs");
}

#[test]
fn used_colors_ignores_test_output_and_strangers() {
    let t = small_task();
    // 12 and -1 are not colours; 9 and 8 only occur in the test output.
    assert_eq!(used_colors(&t), vec![0, 1, 2, 3, 5, 7]);
}

#[test]
fn used_colors_same_for_any_test_output() {
    let t1 = small_task();
    let mut t2 = small_task();
    t2.test_output = grid(1, 2, vec![4, 6]);
    assert_eq!(used_colors(&t1), used_colors(&t2));
}

#[test]
fn adjacency_pairs_order_right_then_down() {
    let p = adjacency_pairs(2, 2);
    assert_eq!(p, vec![[0, 0, 0, 1], [0, 0, 1, 0], [0, 1, 1, 1], [1, 0, 1, 1]]);
}

#[test]
fn adjacency_pairs_count_formula() {
    // h * (w - 1) + (h - 1) * w
    assert_eq!(adjacency_pairs(3, 4).len(), 3 * 3 + 2 * 4);
    assert_eq!(adjacency_pairs(1, 1).len(), 0);
    assert_eq!(adjacency_pairs(0, 5).len(), 0);
    assert_eq!(adjacency_pairs(1, 3), vec![[0, 0, 0, 1], [0, 1, 0, 2]]);
}

#[test]
fn color_to_idx_finds_first_position() {
    let used = vec![0, 3, 5, 3];
    assert_eq!(color_to_idx(&used, 3), Some(1));
    assert_eq!(color_to_idx(&used, 5), Some(2));
    assert_eq!(color_to_idx(&used, 4), None);
}

#[test]
fn color_index_table_maps_last_position() {
    let used = vec![0, 3, 5, 3];
    let c2i = color_index_table(&used);
    assert_eq!(c2i.len(), 10);
    assert_eq!(lookup_color(&c2i, 3), Some(3));
    assert_eq!(lookup_color(&c2i, 0), Some(0));
    assert_eq!(lookup_color(&c2i, 9), None);
    assert_eq!(lookup_color(&c2i, -1), None);
    assert_eq!(lookup_color(&c2i, 10), None);
}
