//! The two counting baselines: per-cell mode prediction, and the table of
//! colour-transition counts over adjacent cells.
use crate::ranking::RankSummary;
use crate::task::{
    adjacency_pairs, color_index, color_index_table, grid_adjacency, is_color, lookup_color, ArcTask,
    Pair, N_COLORS,
};
use vstd::arithmetic::div_mod::lemma_fundamental_div_mod_converse;
use std::collections::HashMap;
use vstd::prelude::*;

verus! {

broadcast use vstd::std_specs::hash::group_hash_axioms;

/// Among the first `n` cells of a pair, how many have input colour `in_c`
/// and output colour `k`.
pub open spec fn cell_transition_count(inp: Seq<i32>, out: Seq<i32>, in_c: i32, k: i32, n: nat) -> nat
    decreases n,
{
    if n == 0 {
        0
    } else {
        cell_transition_count(inp, out, in_c, k, (n - 1) as nat) + (if inp[n - 1] == in_c && out[n
            - 1] == k {
            1nat
        } else {
            0nat
        })
    }
}

/// Over all training pairs, how many cells have input colour `in_c` and
/// output colour `k`.
pub open spec fn train_transition_count(train: Seq<Pair>, in_c: i32, k: i32) -> nat
    decreases train.len(),
{
    if train.len() == 0 {
        0
    } else {
        train_transition_count(train.drop_last(), in_c, k) + cell_transition_count(
            train.last().input.data@,
            train.last().output.data@,
            in_c,
            k,
            train.last().input.data@.len(),
        )
    }
}

/// Every count of an output colour for input colour `in_c` fits in a
/// `u32`, as the per-colour counters that the mode baseline keeps.
pub open spec fn counts_fit(train: Seq<Pair>, in_c: i32) -> bool {
    forall|k: i32| is_color(k) ==> #[trigger] train_transition_count(train, in_c, k) <= u32::MAX
}

/// `p` is the colour most often produced from input colour `in_c` in the
/// training pairs, the highest such colour on ties.
pub open spec fn is_mode_prediction(train: Seq<Pair>, in_c: i32, p: i32) -> bool {
    &&& is_color(p)
    &&& forall|q: i32|
        is_color(q) ==> #[trigger] train_transition_count(train, in_c, q)
            <= train_transition_count(train, in_c, p)
    &&& forall|q: i32|
        p < q < N_COLORS ==> #[trigger] train_transition_count(train, in_c, q)
            < train_transition_count(train, in_c, p)
}

/// If input cell `j` of `p` has colour `in_c`, the output grid has a cell
/// `j` too.
pub open spec fn output_cell_present(p: Pair, in_c: i32, j: int) -> bool {
    p.input.data@[j] == in_c ==> j < p.output.data@.len()
}

/// Every training input cell of colour `in_c` has an output cell at the
/// same position.
pub open spec fn outputs_cover_color(train: Seq<Pair>, in_c: i32) -> bool {
    forall|i: int, j: int|
        0 <= i < train.len() && 0 <= j < train[i].input.data@.len() ==> #[trigger] output_cell_present(
            train[i],
            in_c,
            j,
        )
}

proof fn lemma_cell_count_mono(inp: Seq<i32>, out: Seq<i32>, in_c: i32, k: i32, m: nat, n: nat)
    requires
        m <= n,
    ensures
        cell_transition_count(inp, out, in_c, k, m) <= cell_transition_count(inp, out, in_c, k, n),
    decreases n,
{
    if m < n {
        lemma_cell_count_mono(inp, out, in_c, k, m, (n - 1) as nat);
    }
}

proof fn lemma_train_count_prefix(train: Seq<Pair>, in_c: i32, k: i32, m: int)
    requires
        0 <= m <= train.len(),
    ensures
        train_transition_count(train.take(m), in_c, k) <= train_transition_count(train, in_c, k),
    decreases train.len(),
{
    if m < train.len() {
        lemma_train_count_prefix(train.drop_last(), in_c, k, m);
        assert(train.drop_last().take(m) =~= train.take(m));
    } else {
        assert(train.take(m) =~= train);
    }
}

/// For input colour `in_c`, how often each output colour `k < 10` goes with
/// it over all training cells.
fn transition_counts(task: &ArcTask, in_c: i32) -> (counts: Vec<u32>)
    requires
        outputs_cover_color(task.train@, in_c),
        counts_fit(task.train@, in_c),
    ensures
        counts@.len() == N_COLORS,
        forall|k: int|
            0 <= k < N_COLORS ==> #[trigger] counts@[k] == train_transition_count(
                task.train@,
                in_c,
                k as i32,
            ),
{
    let mut counts: Vec<u32> = vec![0; N_COLORS];
    let mut i: usize = 0;
    while i < task.train.len()
        invariant
            i <= task.train@.len(),
            outputs_cover_color(task.train@, in_c),
            counts_fit(task.train@, in_c),
            counts@.len() == N_COLORS,
            forall|k: int|
                0 <= k < N_COLORS ==> #[trigger] counts@[k] == train_transition_count(
                    task.train@.take(i as int),
                    in_c,
                    k as i32,
                ),
        decreases task.train@.len() - i,
    {
        let pair = &task.train[i];
        let ghost before = counts@;
        let ghost prev = task.train@.take(i as int);
        assert(task.train@.take(i + 1).drop_last() =~= prev);
        let ghost upto = task.train@.take(i + 1);
        assert(upto.drop_last() =~= prev && upto.last() == *pair);
        assert forall|k: i32| is_color(k) implies #[trigger] train_transition_count(prev, in_c, k)
            + cell_transition_count(pair.input.data@, pair.output.data@, in_c, k, pair.input.data@.len())
            <= u32::MAX by {
            lemma_train_count_prefix(task.train@, in_c, k, i + 1);
            assert(train_transition_count(task.train@, in_c, k) <= u32::MAX);
        }
        assert(forall|j: int|
            0 <= j < pair.input.data@.len() ==> #[trigger] output_cell_present(*pair, in_c, j)) by {
            assert forall|j: int| 0 <= j < pair.input.data@.len() implies #[trigger] output_cell_present(
                *pair,
                in_c,
                j,
            ) by {
                assert(output_cell_present(task.train@[i as int], in_c, j));
            }
        }
        let mut j: usize = 0;
        while j < pair.input.data.len()
            invariant
                j <= pair.input.data@.len(),
                forall|j: int|
                    0 <= j < pair.input.data@.len() ==> #[trigger] output_cell_present(*pair, in_c, j),
                counts@.len() == N_COLORS,
                forall|k: i32|
                    is_color(k) ==> #[trigger] train_transition_count(prev, in_c, k)
                        + cell_transition_count(
                        pair.input.data@,
                        pair.output.data@,
                        in_c,
                        k,
                        pair.input.data@.len(),
                    ) <= u32::MAX,
                forall|k: int|
                    0 <= k < N_COLORS ==> #[trigger] counts@[k] == train_transition_count(
                        prev,
                        in_c,
                        k as i32,
                    ) + cell_transition_count(
                        pair.input.data@,
                        pair.output.data@,
                        in_c,
                        k as i32,
                        j as nat,
                    ),
            decreases pair.input.data@.len() - j,
        {
            if pair.input.data[j] == in_c {
                assert(output_cell_present(*pair, in_c, j as int));
                let out_c = pair.output.data[j];
                if 0 <= out_c && out_c < 10 {
                    proof {
                        assert(is_color(out_c));
                        lemma_cell_count_mono(
                            pair.input.data@,
                            pair.output.data@,
                            in_c,
                            out_c,
                            (j + 1) as nat,
                            pair.input.data@.len(),
                        );
                        assert(train_transition_count(prev, in_c, out_c) + cell_transition_count(
                            pair.input.data@,
                            pair.output.data@,
                            in_c,
                            out_c,
                            pair.input.data@.len(),
                        ) <= u32::MAX);
                    }
                    let v = counts[out_c as usize] + 1;
                    counts.set(out_c as usize, v);
                }
            }
            j += 1;
        }
        i += 1;
    }
    assert(task.train@.take(task.train@.len() as int) =~= task.train@);
    counts
}

/// The last position of a largest count among the ten colours.
fn last_max_index(counts: &Vec<u32>) -> (best: usize)
    requires
        counts@.len() == N_COLORS,
    ensures
        best < N_COLORS,
        forall|q: int| 0 <= q < N_COLORS ==> #[trigger] counts@[q] <= counts@[best as int],
        forall|q: int| best < q < N_COLORS ==> #[trigger] counts@[q] < counts@[best as int],
{
    let mut best: usize = 0;
    let mut k: usize = 1;
    while k < N_COLORS
        invariant
            counts@.len() == N_COLORS,
            1 <= k <= N_COLORS,
            best < k,
            forall|q: int| 0 <= q < k ==> #[trigger] counts@[q] <= counts@[best as int],
            forall|q: int| best < q < k ==> #[trigger] counts@[q] < counts@[best as int],
        decreases N_COLORS - k,
    {
        if counts[k] >= counts[best] {
            best = k;
        }
        k += 1;
    }
    best
}

/// For every test-input cell, the output colour that training cells of the
/// same input colour most often have (the highest colour on ties).
pub fn predict_cell_modes(task: &ArcTask) -> (prediction: Vec<i32>)
    requires
        forall|k: int|
            0 <= k < task.test_input.h * task.test_input.w ==> outputs_cover_color(
                task.train@,
                #[trigger] task.test_input.data@[k],
            ),
        forall|k: int|
            0 <= k < task.test_input.h * task.test_input.w ==> counts_fit(
                task.train@,
                #[trigger] task.test_input.data@[k],
            ),
        task.test_input.h * task.test_input.w <= task.test_input.data@.len(),
    ensures
        prediction@.len() == task.test_input.h * task.test_input.w,
        forall|i: int|
            0 <= i < prediction@.len() ==> is_mode_prediction(
                task.train@,
                task.test_input.data@[i],
                #[trigger] prediction@[i],
            ),
{
    let n = task.test_input.data.len();
    let hw = task.test_input.h * task.test_input.w;
    let mut prediction: Vec<i32> = Vec::new();
    let mut i: usize = 0;
    while i < hw
        invariant
            hw == task.test_input.h * task.test_input.w,
            hw <= task.test_input.data@.len(),
            forall|k: int|
                0 <= k < hw ==> outputs_cover_color(task.train@, #[trigger] task.test_input.data@[k]),
            forall|k: int| 0 <= k < hw ==> counts_fit(task.train@, #[trigger] task.test_input.data@[k]),
            i <= hw,
            prediction@.len() == i,
            forall|k: int|
                0 <= k < i ==> is_mode_prediction(
                    task.train@,
                    task.test_input.data@[k],
                    #[trigger] prediction@[k],
                ),
        decreases hw - i,
    {
        let in_c = task.test_input.data[i];
        let counts = transition_counts(task, in_c);
        let best = last_max_index(&counts);
        let p = best as i32;
        proof {
            assert forall|q: i32| is_color(q) implies #[trigger] train_transition_count(
                task.train@,
                in_c,
                q,
            ) <= train_transition_count(task.train@, in_c, p) by {
                assert(counts@[q as int] <= counts@[best as int]);
            }
            assert forall|q: i32| p < q < N_COLORS implies #[trigger] train_transition_count(
                task.train@,
                in_c,
                q,
            ) < train_transition_count(task.train@, in_c, p) by {
                assert(counts@[q as int] < counts@[best as int]);
            }
        }
        prediction.push(p);
        i += 1;
    }
    prediction
}

/// Whether two grids' cells are equal.
fn same_cells(a: &Vec<i32>, b: &Vec<i32>) -> (eq: bool)
    ensures
        eq == (a@ == b@),
{
    if a.len() != b.len() {
        return false;
    }
    let mut i: usize = 0;
    while i < a.len()
        invariant
            a@.len() == b@.len(),
            i <= a@.len(),
            forall|k: int| 0 <= k < i ==> a@[k] == b@[k],
        decreases a@.len() - i,
    {
        if a[i] != b[i] {
            return false;
        }
        i += 1;
    }
    assert(a@ =~= b@);
    true
}

/// The test output is the per-cell mode prediction of the test input.
pub open spec fn m7_predicted(task: ArcTask) -> bool {
    let hw = task.test_input.h * task.test_input.w;
    &&& task.test_output.data@.len() == hw
    &&& forall|i: int|
        0 <= i < hw ==> is_mode_prediction(
            task.train@,
            task.test_input.data@[i],
            #[trigger] task.test_output.data@[i],
        )
}

/// The report of the per-cell mode baseline on `task`: a function of the
/// task alone, with no seed.
pub open spec fn m7_summary(task: ArcTask) -> RankSummary {
    RankSummary {
        rank: if m7_predicted(task) {
            1
        } else {
            u64::MAX
        },
        solved: m7_predicted(task),
        n_candidates: 1,
        total_trans: 0,
    }
}

/// The per-cell mode baseline: the task counts as solved (rank 1 of a single
/// candidate) when the per-cell mode prediction equals the test output, and
/// as unranked (`u64::MAX`) otherwise.
pub fn solve_m7(task: &ArcTask) -> (res: RankSummary)
    requires
        forall|k: int|
            0 <= k < task.test_input.h * task.test_input.w ==> outputs_cover_color(
                task.train@,
                #[trigger] task.test_input.data@[k],
            ),
        forall|k: int|
            0 <= k < task.test_input.h * task.test_input.w ==> counts_fit(
                task.train@,
                #[trigger] task.test_input.data@[k],
            ),
        task.test_input.h * task.test_input.w <= task.test_input.data@.len(),
    ensures
        res == m7_summary(*task),
{
    let prediction = predict_cell_modes(task);
    let solved = same_cells(&prediction, &task.test_output.data);
    proof {
        let hw = task.test_input.h * task.test_input.w;
        if task.test_output.data@.len() == hw && forall|i: int|
            0 <= i < hw ==> is_mode_prediction(
                task.train@,
                task.test_input.data@[i],
                #[trigger] task.test_output.data@[i],
            ) {
            assert forall|i: int| 0 <= i < hw implies prediction@[i] == task.test_output.data@[i] by {
                lemma_mode_prediction_unique(
                    task.train@,
                    task.test_input.data@[i],
                    prediction@[i],
                    task.test_output.data@[i],
                );
            }
            assert(prediction@ =~= task.test_output.data@);
        }
    }
    RankSummary {
        rank: if solved { 1 } else { u64::MAX },
        solved,
        n_candidates: 1,
        total_trans: 0,
    }
}

/// The mode prediction of an input colour is unique.
pub proof fn lemma_mode_prediction_unique(train: Seq<Pair>, in_c: i32, p: i32, q: i32)
    requires
        is_mode_prediction(train, in_c, p),
        is_mode_prediction(train, in_c, q),
    ensures
        p == q,
{
    if p < q {
        assert(train_transition_count(train, in_c, q) < train_transition_count(train, in_c, p));
        assert(train_transition_count(train, in_c, p) <= train_transition_count(train, in_c, q));
    } else if q < p {
        assert(train_transition_count(train, in_c, p) < train_transition_count(train, in_c, q));
        assert(train_transition_count(train, in_c, q) <= train_transition_count(train, in_c, p));
    }
}


/// The colour index of a cell value: its index in `used` when it is one of
/// the ten colours and listed there.
pub open spec fn cell_index(used: Seq<i32>, v: i32) -> Option<int> {
    if is_color(v) {
        color_index(used, v)
    } else {
        None
    }
}

/// The transition `(in_a, out_a, in_b, out_b)` of colour indices that an
/// adjacent pair `a` of a training pair shows, when all four colours have an
/// index; `w` is the width of the training grids.
pub open spec fn adjacency_key(used: Seq<i32>, inp: Seq<i32>, out: Seq<i32>, w: nat, a: [usize; 4]) -> Option<
    (int, int, int, int),
> {
    let x = a[0] * w + a[1];
    let y = a[2] * w + a[3];
    match (
        cell_index(used, inp[x]),
        cell_index(used, out[x]),
        cell_index(used, inp[y]),
        cell_index(used, out[y]),
    ) {
        (Some(ia), Some(oa), Some(ib), Some(ob)) => Some((ia, oa, ib, ob)),
        _ => None,
    }
}

/// How many pairs of `adj` show transition `key`.
pub open spec fn key_count(
    used: Seq<i32>,
    inp: Seq<i32>,
    out: Seq<i32>,
    w: nat,
    adj: Seq<[usize; 4]>,
    key: (int, int, int, int),
) -> nat
    decreases adj.len(),
{
    if adj.len() == 0 {
        0
    } else {
        key_count(used, inp, out, w, adj.drop_last(), key) + (if adjacency_key(
            used,
            inp,
            out,
            w,
            adj.last(),
        ) == Some(key) {
            1nat
        } else {
            0nat
        })
    }
}

/// The adjacent pairs of a training pair's input grid.
pub open spec fn pair_adjacency(p: Pair) -> Seq<[usize; 4]> {
    grid_adjacency(p.input.h as nat, p.input.w as nat, p.input.h as nat)
}

/// How many adjacent cell pairs of training pair `p` show transition `key`.
pub open spec fn pair_key_count(used: Seq<i32>, p: Pair, key: (int, int, int, int)) -> nat {
    key_count(used, p.input.data@, p.output.data@, p.input.w as nat, pair_adjacency(p), key)
}

/// How many adjacent cell pairs of all training pairs show transition `key`.
pub open spec fn train_key_count(train: Seq<Pair>, used: Seq<i32>, key: (int, int, int, int)) -> nat
    decreases train.len(),
{
    if train.len() == 0 {
        0
    } else {
        train_key_count(train.drop_last(), used, key) + pair_key_count(used, train.last(), key)
    }
}

/// Every transition count of colour indices fits in a `u32`, as the
/// counters that the counting baseline keeps.
pub open spec fn key_counts_fit(train: Seq<Pair>, used: Seq<i32>) -> bool {
    forall|a: int, b: int, c: int, d: int|
        0 <= a < used.len() && 0 <= b < used.len() && 0 <= c < used.len() && 0 <= d < used.len()
            ==> #[trigger] train_key_count(train, used, (a, b, c, d)) <= u32::MAX
}

/// The count that a map of counts keeps under `k`, zero where it has none.
pub open spec fn stored_count(m: Map<usize, u32>, k: usize) -> nat {
    if m.contains_key(k) {
        m[k] as nat
    } else {
        0
    }
}

/// Both cells of the `t`-th adjacent pair of training pair `p` lie inside
/// its input and its output grid.
pub open spec fn adjacency_in_range(p: Pair, t: int) -> bool {
    let a = pair_adjacency(p)[t];
    let w = p.input.w as int;
    &&& a[0] * w + a[1] < p.input.data@.len()
    &&& a[0] * w + a[1] < p.output.data@.len()
    &&& a[2] * w + a[3] < p.input.data@.len()
    &&& a[2] * w + a[3] < p.output.data@.len()
}

/// Every adjacent pair of every training pair lies inside its grids.
pub open spec fn train_adjacency_in_range(train: Seq<Pair>) -> bool {
    forall|i: int, t: int|
        0 <= i < train.len() && 0 <= t < pair_adjacency(train[i]).len() ==> #[trigger] adjacency_in_range(
            train[i],
            t,
        )
}

/// Flat position of transition `(a, b, c, d)` in a table of `nc^4` counts.
pub open spec fn flat_key(nc: int, a: int, b: int, c: int, d: int) -> int {
    ((a * nc + b) * nc + c) * nc + d
}

proof fn lemma_flat_key_bounds(nc: int, a: int, b: int, c: int, d: int)
    requires
        0 <= a < nc,
        0 <= b < nc,
        0 <= c < nc,
        0 <= d < nc,
    ensures
        0 <= a * nc + b < nc * nc,
        0 <= (a * nc + b) * nc + c < nc * nc * nc,
        0 <= flat_key(nc, a, b, c, d) < nc * nc * nc * nc,
{
    assert(0 <= a * nc + b < nc * nc) by (nonlinear_arith)
        requires
            0 <= a < nc,
            0 <= b < nc,
    ;
    let x = a * nc + b;
    assert(0 <= x * nc + c < nc * nc * nc) by (nonlinear_arith)
        requires
            0 <= x < nc * nc,
            0 <= c < nc,
    ;
    let y = x * nc + c;
    assert(0 <= y * nc + d < nc * nc * nc * nc) by (nonlinear_arith)
        requires
            0 <= y < nc * nc * nc,
            0 <= d < nc,
    ;
}

proof fn lemma_flat_key_injective(nc: int, k1: (int, int, int, int), k2: (int, int, int, int))
    requires
        0 <= k1.0 < nc && 0 <= k1.1 < nc && 0 <= k1.2 < nc && 0 <= k1.3 < nc,
        0 <= k2.0 < nc && 0 <= k2.1 < nc && 0 <= k2.2 < nc && 0 <= k2.3 < nc,
        flat_key(nc, k1.0, k1.1, k1.2, k1.3) == flat_key(nc, k2.0, k2.1, k2.2, k2.3),
    ensures
        k1 == k2,
{
    let f = flat_key(nc, k1.0, k1.1, k1.2, k1.3);
    let x1 = k1.0 * nc + k1.1;
    let x2 = k2.0 * nc + k2.1;
    let y1 = x1 * nc + k1.2;
    let y2 = x2 * nc + k2.2;
    lemma_fundamental_div_mod_converse(f, nc, y1, k1.3);
    lemma_fundamental_div_mod_converse(f, nc, y2, k2.3);
    lemma_fundamental_div_mod_converse(y1, nc, x1, k1.2);
    lemma_fundamental_div_mod_converse(y1, nc, x2, k2.2);
    lemma_fundamental_div_mod_converse(x1, nc, k1.0, k1.1);
    lemma_fundamental_div_mod_converse(x1, nc, k2.0, k2.1);
}

proof fn lemma_key_count_prefix(
    used: Seq<i32>,
    inp: Seq<i32>,
    out: Seq<i32>,
    w: nat,
    adj: Seq<[usize; 4]>,
    key: (int, int, int, int),
    m: int,
)
    requires
        0 <= m <= adj.len(),
    ensures
        key_count(used, inp, out, w, adj.take(m), key) <= key_count(used, inp, out, w, adj, key),
    decreases adj.len(),
{
    if m < adj.len() {
        lemma_key_count_prefix(used, inp, out, w, adj.drop_last(), key, m);
        assert(adj.drop_last().take(m) =~= adj.take(m));
    } else {
        assert(adj.take(m) =~= adj);
    }
}

proof fn lemma_train_key_count_prefix(train: Seq<Pair>, used: Seq<i32>, key: (int, int, int, int), m: int)
    requires
        0 <= m <= train.len(),
    ensures
        train_key_count(train.take(m), used, key) <= train_key_count(train, used, key),
    decreases train.len(),
{
    if m < train.len() {
        lemma_train_key_count_prefix(train.drop_last(), used, key, m);
        assert(train.drop_last().take(m) =~= train.take(m));
    } else {
        assert(train.take(m) =~= train);
    }
}

/// Counts of every transition `(in_a, out_a, in_b, out_b)` of colour
/// indices over the adjacent cell pairs of all training pairs, stored at
/// `flat_key`.
fn count_transitions(task: &ArcTask, used: &[i32]) -> (counts: HashMap<usize, u32>)
    requires
        used@.len() <= N_COLORS,
        forall|k: int| 0 <= k < used@.len() ==> is_color(#[trigger] used@[k]),
        train_adjacency_in_range(task.train@),
        key_counts_fit(task.train@, used@),
    ensures
        forall|a: int, b: int, c: int, d: int|
            0 <= a < used@.len() && 0 <= b < used@.len() && 0 <= c < used@.len() && 0 <= d
                < used@.len() ==> #[trigger] stored_count(counts@, flat_key(used@.len() as int, a, b, c, d) as usize)
                == train_key_count(task.train@, used@, (a, b, c, d)),
{
    let nc = used.len();
    assert(nc * nc <= 100 && nc * nc * nc <= 1000 && nc * nc * nc * nc <= 10000) by (nonlinear_arith)
        requires
            nc <= 10,
    ;
    let n4 = nc * nc * nc * nc;
    let c2i = color_index_table(used);
    let mut counts: HashMap<usize, u32> = HashMap::new();
    proof {
        assert forall|a: int, b: int, c: int, d: int|
            0 <= a < nc && 0 <= b < nc && 0 <= c < nc && 0 <= d < nc
                implies #[trigger] stored_count(counts@, flat_key(nc as int, a, b, c, d) as usize) == train_key_count(
                task.train@.take(0),
                used@,
                (a, b, c, d),
            ) by {
            lemma_flat_key_bounds(nc as int, a, b, c, d);
            assert(task.train@.take(0) =~= Seq::<Pair>::empty());
        }
    }
    let mut i: usize = 0;
    while i < task.train.len()
        invariant
            i <= task.train@.len(),
            nc == used@.len(),
            n4 == nc * nc * nc * nc,
            nc * nc <= 100 && nc * nc * nc <= 1000 && nc * nc * nc * nc <= 10000,
            c2i@.len() == N_COLORS,
            forall|c: i32|
                is_color(c) ==> (#[trigger] c2i@[c as int] matches Some(p) ==> color_index(used@, c)
                    == Some(p as int)) && (c2i@[c as int] is None ==> color_index(used@, c) is None),
            forall|k: int| 0 <= k < used@.len() ==> is_color(#[trigger] used@[k]),
            train_adjacency_in_range(task.train@),
            key_counts_fit(task.train@, used@),
            forall|a: int, b: int, c: int, d: int|
                0 <= a < nc && 0 <= b < nc && 0 <= c < nc && 0 <= d < nc
                    ==> #[trigger] stored_count(counts@, flat_key(nc as int, a, b, c, d) as usize) == train_key_count(
                    task.train@.take(i as int),
                    used@,
                    (a, b, c, d),
                ),
        decreases task.train@.len() - i,
    {
        let pair = &task.train[i];
        let ghost prev = task.train@.take(i as int);
        assert(task.train@.take(i + 1).drop_last() =~= prev);
        let n_in = pair.input.data.len();
        let n_out = pair.output.data.len();
        let pw = pair.input.w;
        let adj = adjacency_pairs(pair.input.h, pw);
        assert forall|t: int| 0 <= t < adj@.len() implies #[trigger] adjacency_in_range(*pair, t) by {
            assert(adjacency_in_range(task.train@[i as int], t));
        }
        assert(task.train@.take(i + 1).last() == *pair);
        assert forall|a: int, b: int, c: int, d: int|
            0 <= a < nc && 0 <= b < nc && 0 <= c < nc && 0 <= d < nc implies #[trigger] train_key_count(
            prev,
            used@,
            (a, b, c, d),
        ) + pair_key_count(used@, *pair, (a, b, c, d)) <= u32::MAX by {
            lemma_train_key_count_prefix(task.train@, used@, (a, b, c, d), i + 1);
            assert(train_key_count(task.train@, used@, (a, b, c, d)) <= u32::MAX);
        }
        let mut t: usize = 0;
        while t < adj.len()
            invariant
                t <= adj@.len(),
                adj@ == pair_adjacency(*pair),
                n_in == pair.input.data@.len(),
                n_out == pair.output.data@.len(),
                pw == pair.input.w,
                forall|t: int| 0 <= t < adj@.len() ==> #[trigger] adjacency_in_range(*pair, t),
                nc == used@.len(),
                n4 == nc * nc * nc * nc,
                nc * nc <= 100 && nc * nc * nc <= 1000 && nc * nc * nc * nc <= 10000,
                    c2i@.len() == N_COLORS,
                forall|c: i32|
                    is_color(c) ==> (#[trigger] c2i@[c as int] matches Some(p) ==> color_index(
                        used@,
                        c,
                    ) == Some(p as int)) && (c2i@[c as int] is None ==> color_index(used@, c) is None),
                forall|k: int| 0 <= k < used@.len() ==> is_color(#[trigger] used@[k]),
                forall|a: int, b: int, c: int, d: int|
                    0 <= a < nc && 0 <= b < nc && 0 <= c < nc && 0 <= d < nc
                        ==> #[trigger] train_key_count(prev, used@, (a, b, c, d)) + pair_key_count(
                        used@,
                        *pair,
                        (a, b, c, d),
                    ) <= u32::MAX,
                forall|a: int, b: int, c: int, d: int|
                    0 <= a < nc && 0 <= b < nc && 0 <= c < nc && 0 <= d < nc
                        ==> #[trigger] stored_count(counts@, flat_key(nc as int, a, b, c, d) as usize) == train_key_count(
                        prev,
                        used@,
                        (a, b, c, d),
                    ) + key_count(
                        used@,
                        pair.input.data@,
                        pair.output.data@,
                        pw as nat,
                        adj@.take(t as int),
                        (a, b, c, d),
                    ),
            decreases adj@.len() - t,
        {
            let p4 = adj[t];
            assert(adjacency_in_range(*pair, t as int));
            let x = p4[0] * pw + p4[1];
            let y = p4[2] * pw + p4[3];
            let ia = lookup_color(&c2i, pair.input.data[x]);
            let oa = lookup_color(&c2i, pair.output.data[x]);
            let ib = lookup_color(&c2i, pair.input.data[y]);
            let ob = lookup_color(&c2i, pair.output.data[y]);
            let ghost akey = adjacency_key(
                used@,
                pair.input.data@,
                pair.output.data@,
                pw as nat,
                adj@[t as int],
            );
            assert(adj@.take(t + 1).drop_last() =~= adj@.take(t as int));
            assert(adj@.take(t + 1).last() == p4);
            proof {
                crate::task::lemma_color_index(used@, pair.input.data@[x as int]);
                crate::task::lemma_color_index(used@, pair.output.data@[x as int]);
                crate::task::lemma_color_index(used@, pair.input.data@[y as int]);
                crate::task::lemma_color_index(used@, pair.output.data@[y as int]);
            }
            match (ia, oa, ib, ob) {
                (Some(a), Some(b), Some(c), Some(d)) => {
                    let ghost k1 = (a as int, b as int, c as int, d as int);
                    assert(akey == Some(k1));
                    proof {
                        lemma_flat_key_bounds(nc as int, a as int, b as int, c as int, d as int);
                        lemma_key_count_prefix(
                            used@,
                            pair.input.data@,
                            pair.output.data@,
                            pw as nat,
                            adj@,
                            k1,
                            t + 1,
                        );
                        assert(train_key_count(prev, used@, k1) + pair_key_count(used@, *pair, k1)
                            <= u32::MAX);
                        assert(((a * nc + b) * nc + c) * nc + d < n4);
                    }
                    let q = ((a * nc + b) * nc + c) * nc + d;
                    assert(q == flat_key(nc as int, a as int, b as int, c as int, d as int));
                    let ghost before = counts@;
                    let cur: u32 = match counts.get(&q) {
                        Some(v) => *v,
                        None => 0,
                    };
                    assert(cur == stored_count(before, q));
                    counts.insert(q, cur + 1);
                    proof {
                        assert forall|a2: int, b2: int, c2: int, d2: int|
                            0 <= a2 < nc && 0 <= b2 < nc && 0 <= c2 < nc && 0 <= d2 < nc
                                implies #[trigger] stored_count(counts@, flat_key(nc as int, a2, b2, c2, d2) as usize)
                                == train_key_count(prev, used@, (a2, b2, c2, d2)) + key_count(
                                used@,
                                pair.input.data@,
                                pair.output.data@,
                                pw as nat,
                                adj@.take(t + 1),
                                (a2, b2, c2, d2),
                            ) by {
                            let k2 = (a2, b2, c2, d2);
                            lemma_flat_key_bounds(nc as int, a2, b2, c2, d2);
                            let f2 = flat_key(nc as int, a2, b2, c2, d2);
                            assert(stored_count(before, f2 as usize) == train_key_count(prev, used@, k2) + key_count(
                                used@,
                                pair.input.data@,
                                pair.output.data@,
                                pw as nat,
                                adj@.take(t as int),
                                k2,
                            ));
                            if f2 == q {
                                lemma_flat_key_injective(nc as int, k1, k2);
                            }
                        }
                    }
                },
                _ => {
                    assert(akey is None);
                },
            }
            t += 1;
        }
        proof {
            assert(adj@.take(adj@.len() as int) =~= adj@);
        }
        i += 1;
    }
    assert(task.train@.take(task.train@.len() as int) =~= task.train@);
    counts
}

/// The colour index of test cell `v` as the counting baseline uses it:
/// its index in `used`, or `0` when it has none.
pub open spec fn index_or_zero(used: Seq<i32>, v: i32) -> int {
    match cell_index(used, v) {
        Some(i) => i,
        None => 0,
    }
}

/// The count that the counting baseline reads for adjacent test cells `a`
/// taking colour indices `ca` and `cb`: how often the training pairs show
/// the transition from the two test input colours to `ca` and `cb`.
pub open spec fn expected_count(task: ArcTask, used: Seq<i32>, a: [usize; 4], ca: int, cb: int) -> nat {
    let w = task.test_input.w as nat;
    let inp = task.test_input.data@;
    train_key_count(
        task.train@,
        used,
        (index_or_zero(used, inp[a[0] * w + a[1]]), ca, index_or_zero(used, inp[a[2] * w + a[3]]), cb),
    )
}

proof fn lemma_table_index(nc: int, ai: int, ca: int, cb: int)
    requires
        nc > 0,
        0 <= ai,
        0 <= ca < nc,
        0 <= cb < nc,
    ensures
        ({
            let j = (ai * nc + ca) * nc + cb;
            &&& j / (nc * nc) == ai
            &&& (j % (nc * nc)) / nc == ca
            &&& (j % (nc * nc)) % nc == cb
        }),
{
    let j = (ai * nc + ca) * nc + cb;
    assert(j == ai * (nc * nc) + (ca * nc + cb)) by (nonlinear_arith)
        requires
            j == (ai * nc + ca) * nc + cb,
    ;
    assert(0 <= ca * nc + cb < nc * nc) by (nonlinear_arith)
        requires
            0 <= ca < nc,
            0 <= cb < nc,
    ;
    assert(nc * nc > 0) by (nonlinear_arith)
        requires
            nc > 0,
    ;
    lemma_fundamental_div_mod_converse(j, nc * nc, ai, ca * nc + cb);
    lemma_fundamental_div_mod_converse(ca * nc + cb, nc, ca, cb);
}

/// The table of transition counts that the counting baseline scores with:
/// for each adjacent pair `adj[ai]` of test cells and each pair of colour
/// indices `(ca, cb)`, at position `(ai * nc + ca) * nc + cb`, how often the
/// training pairs map the two test input colours to `ca` and `cb` on
/// adjacent cells.
pub fn transition_count_table(task: &ArcTask, used: &[i32], adj: &[[usize; 4]]) -> (table: Vec<u32>)
    requires
        used@.len() <= N_COLORS,
        forall|k: int| 0 <= k < used@.len() ==> is_color(#[trigger] used@[k]),
        train_adjacency_in_range(task.train@),
        key_counts_fit(task.train@, used@),
        adj@.len() * used@.len() * used@.len() <= usize::MAX,
        forall|ai: int|
            0 <= ai < adj@.len() ==> {
                &&& (#[trigger] adj@[ai])[0] * task.test_input.w + adj@[ai][1]
                    < task.test_input.data@.len()
                &&& adj@[ai][2] * task.test_input.w + adj@[ai][3] < task.test_input.data@.len()
            },
    ensures
        table@.len() == adj@.len() * used@.len() * used@.len(),
        forall|ai: int, ca: int, cb: int|
            0 <= ai < adj@.len() && 0 <= ca < used@.len() && 0 <= cb < used@.len() ==> #[trigger] table@[(
            ai * used@.len() + ca) * used@.len() + cb] == expected_count(*task, used@, adj@[ai], ca, cb),
{
    let nc = used.len();
    let counts = count_transitions(task, used);
    let c2i = color_index_table(used);
    assert(nc * nc <= 100 && nc * nc * nc <= 1000 && nc * nc * nc * nc <= 10000) by (nonlinear_arith)
        requires
            nc <= 10,
    ;
    let mut table: Vec<u32> = Vec::new();
    if nc == 0 {
        assert(adj@.len() * nc * nc == 0) by (nonlinear_arith)
            requires
                nc == 0,
        ;
        return table;
    }
    let nn = nc * nc;
    let n_adj = adj.len();
    let n_test = task.test_input.data.len();
    assert(n_adj * nn == n_adj * nc * nc) by (nonlinear_arith)
        requires
            nn == nc * nc,
    ;
    let total = n_adj * nn;
    assert(total == n_adj * nc * nc) by (nonlinear_arith)
        requires
            total == n_adj * nn,
            nn == nc * nc,
    ;
    let w = task.test_input.w;
    let mut j: usize = 0;
    while j < total
        invariant
            0 < nc <= 10,
            nc == used@.len(),
            nn == nc * nc,
            nc * nc <= 100 && nc * nc * nc <= 1000 && nc * nc * nc * nc <= 10000,
            total == n_adj * nn,
            n_adj == adj@.len(),
            w == task.test_input.w,
            n_test == task.test_input.data@.len(),
            j <= total,
            table@.len() == j,
            forall|a: int, b: int, c: int, d: int|
                0 <= a < nc && 0 <= b < nc && 0 <= c < nc && 0 <= d < nc
                    ==> #[trigger] stored_count(counts@, flat_key(nc as int, a, b, c, d) as usize) == train_key_count(
                    task.train@,
                    used@,
                    (a, b, c, d),
                ),
            c2i@.len() == N_COLORS,
            forall|c: i32|
                is_color(c) ==> (#[trigger] c2i@[c as int] matches Some(p) ==> color_index(used@, c)
                    == Some(p as int)) && (c2i@[c as int] is None ==> color_index(used@, c) is None),
            forall|ai: int|
                0 <= ai < adj@.len() ==> {
                    &&& (#[trigger] adj@[ai])[0] * task.test_input.w + adj@[ai][1]
                        < task.test_input.data@.len()
                    &&& adj@[ai][2] * task.test_input.w + adj@[ai][3] < task.test_input.data@.len()
                },
            forall|k: int|
                0 <= k < j ==> #[trigger] table@[k] == expected_count(
                    *task,
                    used@,
                    adj@[k / (nc * nc) as int],
                    (k % (nc * nc) as int) / nc as int,
                    (k % (nc * nc) as int) % nc as int,
                ),
        decreases total - j,
    {
        let ai = j / nn;
        let rest = j % nn;
        let ca = rest / nc;
        let cb = rest % nc;
        assert(ai < n_adj) by (nonlinear_arith)
            requires
                j < n_adj * nn,
                ai == j / nn,
                nn > 0,
        ;
        let a = adj[ai];
        let x = a[0] * w + a[1];
        let y = a[2] * w + a[3];
        let in_a = match lookup_color(&c2i, task.test_input.data[x]) {
            Some(i) => i,
            None => 0,
        };
        let in_b = match lookup_color(&c2i, task.test_input.data[y]) {
            Some(i) => i,
            None => 0,
        };
        proof {
            crate::task::lemma_color_index(used@, task.test_input.data@[x as int]);
            crate::task::lemma_color_index(used@, task.test_input.data@[y as int]);
            assert(rest < nn);
            assert(ca < nc) by (nonlinear_arith)
                requires
                    rest < nc * nc,
                    ca == rest / nc,
                    nc > 0,
            ;
            lemma_flat_key_bounds(nc as int, in_a as int, ca as int, in_b as int, cb as int);
        }
        let q = ((in_a * nc + ca) * nc + in_b) * nc + cb;
        let cnt: u32 = match counts.get(&q) {
            Some(v) => *v,
            None => 0,
        };
        assert(q == flat_key(nc as int, in_a as int, ca as int, in_b as int, cb as int));
        assert(cnt == stored_count(
            counts@,
            flat_key(nc as int, in_a as int, ca as int, in_b as int, cb as int) as usize,
        ));
        table.push(cnt);
        j += 1;
    }
    proof {
        assert forall|ai: int, ca: int, cb: int|
            0 <= ai < adj@.len() && 0 <= ca < used@.len() && 0 <= cb < used@.len()
                implies #[trigger] table@[(ai * used@.len() + ca) * used@.len() + cb]
                == expected_count(*task, used@, adj@[ai], ca, cb) by {
            lemma_table_index(nc as int, ai, ca, cb);
            let k = (ai * nc + ca) * nc + cb;
            assert(k < total) by (nonlinear_arith)
                requires
                    k == (ai * nc + ca) * nc + cb,
                    0 <= ai < n_adj,
                    0 <= ca < nc,
                    0 <= cb < nc,
                    total == n_adj * (nc * nc),
            ;
        }
    }
    table
}


/// The colours `(in_a, out_a, in_b, out_b)` of the `a`-th adjacent pair of
/// training pair `p`.
pub open spec fn pair_transition(p: Pair, a: [usize; 4]) -> (i32, i32, i32, i32) {
    let w = p.input.w as int;
    let x = a[0] * w + a[1];
    let y = a[2] * w + a[3];
    (p.input.data@[x], p.output.data@[x], p.input.data@[y], p.output.data@[y])
}

/// The colour transitions of all adjacent pairs of training pair `p`, in
/// adjacency order.
pub open spec fn pair_transitions(p: Pair) -> Seq<(i32, i32, i32, i32)> {
    pair_adjacency(p).map_values(|a: [usize; 4]| pair_transition(p, a))
}

/// The colour transitions of all training pairs, pair after pair.
pub open spec fn train_transitions(train: Seq<Pair>) -> Seq<(i32, i32, i32, i32)>
    decreases train.len(),
{
    if train.len() == 0 {
        Seq::empty()
    } else {
        train_transitions(train.drop_last()) + pair_transitions(train.last())
    }
}

/// One when `x` is one of the ten colours and equals `y`: the two one-hot
/// blocks then share their one.
pub open spec fn slot_match(x: i32, y: i32) -> nat {
    if is_color(x) && x == y {
        1
    } else {
        0
    }
}

/// How many of the four one-hot blocks of two transitions share their one.
pub open spec fn transition_matches(t: (i32, i32, i32, i32), r: (i32, i32, i32, i32)) -> nat {
    slot_match(t.0, r.0) + slot_match(t.1, r.1) + slot_match(t.2, r.2) + slot_match(t.3, r.3)
}

/// Total of the matches of `t` against every reference transition.
pub open spec fn total_matches(refs: Seq<(i32, i32, i32, i32)>, t: (i32, i32, i32, i32)) -> nat
    decreases refs.len(),
{
    if refs.len() == 0 {
        0
    } else {
        total_matches(refs.drop_last(), t) + transition_matches(t, refs.last())
    }
}

/// The colour transitions of every adjacent cell pair of every training
/// pair, pair after pair and in adjacency order within a pair.
pub fn training_transitions(task: &ArcTask) -> (refs: Vec<(i32, i32, i32, i32)>)
    requires
        train_adjacency_in_range(task.train@),
    ensures
        refs@ == train_transitions(task.train@),
{
    let mut refs: Vec<(i32, i32, i32, i32)> = Vec::new();
    let mut i: usize = 0;
    while i < task.train.len()
        invariant
            i <= task.train@.len(),
            train_adjacency_in_range(task.train@),
            refs@ == train_transitions(task.train@.take(i as int)),
        decreases task.train@.len() - i,
    {
        let pair = &task.train[i];
        assert(task.train@.take(i + 1).drop_last() =~= task.train@.take(i as int));
        let pw = pair.input.w;
        let n_in = pair.input.data.len();
        let n_out = pair.output.data.len();
        let adj = adjacency_pairs(pair.input.h, pw);
        assert forall|t: int| 0 <= t < adj@.len() implies #[trigger] adjacency_in_range(*pair, t) by {
            assert(adjacency_in_range(task.train@[i as int], t));
        }
        let ghost before = refs@;
        let mut t: usize = 0;
        while t < adj.len()
            invariant
                t <= adj@.len(),
                adj@ == pair_adjacency(*pair),
                pw == pair.input.w,
                n_in == pair.input.data@.len(),
                n_out == pair.output.data@.len(),
                forall|t: int| 0 <= t < adj@.len() ==> #[trigger] adjacency_in_range(*pair, t),
                refs@ == before + pair_transitions(*pair).take(t as int),
            decreases adj@.len() - t,
        {
            let a = adj[t];
            assert(adjacency_in_range(*pair, t as int));
            let x = a[0] * pw + a[1];
            let y = a[2] * pw + a[3];
            refs.push((pair.input.data[x], pair.output.data[x], pair.input.data[y], pair.output.data[y]));
            assert(pair_transitions(*pair)[t as int] == pair_transition(*pair, a));
            assert(refs@ =~= before + pair_transitions(*pair).take(t + 1));
            t += 1;
        }
        assert(pair_transitions(*pair).take(adj@.len() as int) =~= pair_transitions(*pair));
        i += 1;
    }
    assert(task.train@.take(task.train@.len() as int) =~= task.train@);
    refs
}

/// Matches of one transition against a list of references.
fn count_matches(refs: &Vec<(i32, i32, i32, i32)>, t: (i32, i32, i32, i32)) -> (m: u64)
    requires
        4 * refs@.len() <= u64::MAX,
    ensures
        m == total_matches(refs@, t),
{
    let mut m: u64 = 0;
    let mut k: usize = 0;
    while k < refs.len()
        invariant
            k <= refs@.len(),
            4 * refs@.len() <= u64::MAX,
            m == total_matches(refs@.take(k as int), t),
            m <= 4 * k,
        decreases refs@.len() - k,
    {
        let r = refs[k];
        assert(refs@.take(k + 1).drop_last() =~= refs@.take(k as int));
        let mut add: u64 = 0;
        if 0 <= t.0 && t.0 < 10 && t.0 == r.0 {
            add += 1;
        }
        if 0 <= t.1 && t.1 < 10 && t.1 == r.1 {
            add += 1;
        }
        if 0 <= t.2 && t.2 < 10 && t.2 == r.2 {
            add += 1;
        }
        if 0 <= t.3 && t.3 < 10 && t.3 == r.3 {
            add += 1;
        }
        m += add;
        k += 1;
    }
    assert(refs@.take(refs@.len() as int) =~= refs@);
    m
}

/// The one-hot matching table: for each adjacent pair `adj[ai]` of test
/// cells and each pair of colour indices `(ca, cb)`, at position
/// `(ai * nc + ca) * nc + cb`, the total number of one-hot blocks that the
/// transition `(test colour, used[ca], test colour, used[cb])` shares with
/// the reference transitions.
pub fn match_count_table(
    task: &ArcTask,
    used: &[i32],
    adj: &[[usize; 4]],
    refs: &Vec<(i32, i32, i32, i32)>,
) -> (table: Vec<u64>)
    requires
        4 * refs@.len() <= u64::MAX,
        adj@.len() * used@.len() * used@.len() <= usize::MAX,
        forall|ai: int|
            0 <= ai < adj@.len() ==> {
                &&& (#[trigger] adj@[ai])[0] * task.test_input.w + adj@[ai][1]
                    < task.test_input.data@.len()
                &&& adj@[ai][2] * task.test_input.w + adj@[ai][3] < task.test_input.data@.len()
            },
    ensures
        table@.len() == adj@.len() * used@.len() * used@.len(),
        forall|ai: int, ca: int, cb: int|
            0 <= ai < adj@.len() && 0 <= ca < used@.len() && 0 <= cb < used@.len() ==> #[trigger] table@[(
            ai * used@.len() + ca) * used@.len() + cb] == total_matches(
                refs@,
                test_transition(*task, used@, adj@[ai], ca, cb),
            ),
{
    let nc = used.len();
    let n_adj = adj.len();
    let n_test = task.test_input.data.len();
    let mut table: Vec<u64> = Vec::new();
    if nc == 0 || n_adj == 0 {
        assert(adj@.len() * nc * nc == 0) by (nonlinear_arith)
            requires
                nc == 0 || adj@.len() == 0,
        ;
        return table;
    }
    assert(nc * nc <= n_adj * nc * nc && n_adj * nc * nc == n_adj * (nc * nc)) by (nonlinear_arith)
        requires
            n_adj >= 1,
    ;
    let nn = nc * nc;
    let total = n_adj * nn;
    let w = task.test_input.w;
    let mut j: usize = 0;
    while j < total
        invariant
            0 < nc,
            nc == used@.len(),
            nn == nc * nc,
            nn <= total,
            total == n_adj * nn,
            n_adj == adj@.len(),
            w == task.test_input.w,
            n_test == task.test_input.data@.len(),
            4 * refs@.len() <= u64::MAX,
            j <= total,
            table@.len() == j,
            forall|ai: int|
                0 <= ai < adj@.len() ==> {
                    &&& (#[trigger] adj@[ai])[0] * task.test_input.w + adj@[ai][1]
                        < task.test_input.data@.len()
                    &&& adj@[ai][2] * task.test_input.w + adj@[ai][3] < task.test_input.data@.len()
                },
            forall|k: int|
                0 <= k < j ==> #[trigger] table@[k] == total_matches(
                    refs@,
                    test_transition(
                        *task,
                        used@,
                        adj@[k / (nc * nc) as int],
                        (k % (nc * nc) as int) / nc as int,
                        (k % (nc * nc) as int) % nc as int,
                    ),
                ),
        decreases total - j,
    {
        let ai = j / nn;
        let rest = j % nn;
        let ca = rest / nc;
        let cb = rest % nc;
        assert(ai < n_adj) by (nonlinear_arith)
            requires
                j < n_adj * nn,
                ai == j / nn,
                nn > 0,
        ;
        assert(ca < nc) by (nonlinear_arith)
            requires
                rest < nc * nc,
                ca == rest / nc,
                nc > 0,
        ;
        let a = adj[ai];
        let x = a[0] * w + a[1];
        let y = a[2] * w + a[3];
        let t = (task.test_input.data[x], used[ca], task.test_input.data[y], used[cb]);
        let m = count_matches(refs, t);
        table.push(m);
        j += 1;
    }
    proof {
        assert forall|ai: int, ca: int, cb: int|
            0 <= ai < adj@.len() && 0 <= ca < used@.len() && 0 <= cb < used@.len()
                implies #[trigger] table@[(ai * used@.len() + ca) * used@.len() + cb]
                == total_matches(refs@, test_transition(*task, used@, adj@[ai], ca, cb)) by {
            lemma_table_index(nc as int, ai, ca, cb);
            let k = (ai * nc + ca) * nc + cb;
            assert(k < total) by (nonlinear_arith)
                requires
                    k == (ai * nc + ca) * nc + cb,
                    0 <= ai < n_adj,
                    0 <= ca < nc,
                    0 <= cb < nc,
                    total == n_adj * (nc * nc),
            ;
        }
    }
    table
}

/// The transition that the one-hot baseline scores for adjacent test cells
/// `a` taking the colours listed at `ca` and `cb`.
pub open spec fn test_transition(task: ArcTask, used: Seq<i32>, a: [usize; 4], ca: int, cb: int) -> (
    i32,
    i32,
    i32,
    i32,
) {
    let w = task.test_input.w as int;
    let inp = task.test_input.data@;
    (inp[a[0] * w + a[1]], used[ca], inp[a[2] * w + a[3]], used[cb])
}


/// The mode baseline's count over the first `n` cells of a pair is the
/// number of positions `j < n` whose input colour is `in_c` and whose
/// output colour is `k`.
pub proof fn lemma_cell_transition_count_filter(inp: Seq<i32>, out: Seq<i32>, in_c: i32, k: i32, n: nat)
    ensures
        cell_transition_count(inp, out, in_c, k, n) == Seq::new(n, |j: int| j).filter(
            |j: int| inp[j] == in_c && out[j] == k,
        ).len(),
    decreases n,
{
    reveal(Seq::filter);
    let s = Seq::new(n, |j: int| j);
    if n > 0 {
        lemma_cell_transition_count_filter(inp, out, in_c, k, (n - 1) as nat);
        assert(s.drop_last() =~= Seq::new((n - 1) as nat, |j: int| j));
        assert(s.last() == n - 1);
    }
}

/// The mode baseline's count over two lists of training pairs, one after
/// the other, is the sum of the counts over each; over a single pair it
/// counts every cell of that pair.
pub proof fn lemma_train_transition_count_concat(t1: Seq<Pair>, t2: Seq<Pair>, in_c: i32, k: i32)
    ensures
        train_transition_count(t1 + t2, in_c, k) == train_transition_count(t1, in_c, k)
            + train_transition_count(t2, in_c, k),
    decreases t2.len(),
{
    if t2.len() == 0 {
        assert(t1 + t2 =~= t1);
    } else {
        lemma_train_transition_count_concat(t1, t2.drop_last(), in_c, k);
        assert((t1 + t2).drop_last() =~= t1 + t2.drop_last());
        assert((t1 + t2).last() == t2.last());
    }
}

/// Over a single training pair, the mode baseline counts every cell of it.
pub proof fn lemma_train_transition_count_single(p: Pair, in_c: i32, k: i32)
    ensures
        train_transition_count(seq![p], in_c, k) == cell_transition_count(
            p.input.data@,
            p.output.data@,
            in_c,
            k,
            p.input.data@.len(),
        ),
{
    assert(seq![p].drop_last() =~= Seq::<Pair>::empty());
    assert(seq![p].last() == p);
    assert(train_transition_count(Seq::<Pair>::empty(), in_c, k) == 0);
}

/// The counting baseline's count of transition `key` over a list of
/// adjacent cell pairs is the number of those pairs, horizontal and
/// vertical alike, whose four colours have the indices `key`.
pub proof fn lemma_key_count_filter(
    used: Seq<i32>,
    inp: Seq<i32>,
    out: Seq<i32>,
    w: nat,
    adj: Seq<[usize; 4]>,
    key: (int, int, int, int),
)
    ensures
        key_count(used, inp, out, w, adj, key) == adj.filter(
            |a: [usize; 4]| adjacency_key(used, inp, out, w, a) == Some(key),
        ).len(),
    decreases adj.len(),
{
    reveal(Seq::filter);
    if adj.len() > 0 {
        lemma_key_count_filter(used, inp, out, w, adj.drop_last(), key);
    }
}

/// With distinct colours in `used`, an adjacent pair `a` shows transition
/// `(ia, oa, ib, ob)` exactly when `used` lists, at those positions, the
/// input and output colours of the pair's first cell and of its second.
pub proof fn lemma_adjacency_key_colours(
    used: Seq<i32>,
    inp: Seq<i32>,
    out: Seq<i32>,
    w: nat,
    a: [usize; 4],
    ia: int,
    oa: int,
    ib: int,
    ob: int,
)
    requires
        used.no_duplicates(),
        forall|i: int| 0 <= i < used.len() ==> is_color(#[trigger] used[i]),
    ensures
        ({
            let x = a[0] * w + a[1];
            let y = a[2] * w + a[3];
            adjacency_key(used, inp, out, w, a) == Some((ia, oa, ib, ob)) <==> {
                &&& 0 <= ia < used.len() && used[ia] == inp[x]
                &&& 0 <= oa < used.len() && used[oa] == out[x]
                &&& 0 <= ib < used.len() && used[ib] == inp[y]
                &&& 0 <= ob < used.len() && used[ob] == out[y]
            }
        }),
{
    let x = a[0] * w + a[1];
    let y = a[2] * w + a[3];
    lemma_cell_index_position(used, inp[x], ia);
    lemma_cell_index_position(used, out[x], oa);
    lemma_cell_index_position(used, inp[y], ib);
    lemma_cell_index_position(used, out[y], ob);
}

proof fn lemma_cell_index_position(used: Seq<i32>, v: i32, i: int)
    requires
        used.no_duplicates(),
        forall|j: int| 0 <= j < used.len() ==> is_color(#[trigger] used[j]),
    ensures
        cell_index(used, v) == Some(i) <==> (0 <= i < used.len() && used[i] == v),
{
    crate::task::lemma_color_index(used, v);
    if 0 <= i < used.len() && used[i] == v {
        assert(is_color(used[i]));
        assert(used.contains(v));
    }
}

/// The counting baseline's count over two lists of training pairs, one
/// after the other, is the sum of the counts over each.
pub proof fn lemma_train_key_count_concat(
    t1: Seq<Pair>,
    t2: Seq<Pair>,
    used: Seq<i32>,
    key: (int, int, int, int),
)
    ensures
        train_key_count(t1 + t2, used, key) == train_key_count(t1, used, key) + train_key_count(
            t2,
            used,
            key,
        ),
    decreases t2.len(),
{
    if t2.len() == 0 {
        assert(t1 + t2 =~= t1);
    } else {
        lemma_train_key_count_concat(t1, t2.drop_last(), used, key);
        assert((t1 + t2).drop_last() =~= t1 + t2.drop_last());
        assert((t1 + t2).last() == t2.last());
    }
}

/// Over a single training pair, the counting baseline counts every adjacent
/// cell pair of its grid (right and lower neighbours).
pub proof fn lemma_train_key_count_single(p: Pair, used: Seq<i32>, key: (int, int, int, int))
    ensures
        train_key_count(seq![p], used, key) == key_count(
            used,
            p.input.data@,
            p.output.data@,
            p.input.w as nat,
            grid_adjacency(p.input.h as nat, p.input.w as nat, p.input.h as nat),
            key,
        ),
{
    assert(seq![p].drop_last() =~= Seq::<Pair>::empty());
    assert(seq![p].last() == p);
    assert(train_key_count(Seq::<Pair>::empty(), used, key) == 0);
}

/// The reference transitions of two lists of training pairs, one after the
/// other, are those of the first list followed by those of the second.
pub proof fn lemma_train_transitions_concat(t1: Seq<Pair>, t2: Seq<Pair>)
    ensures
        train_transitions(t1 + t2) == train_transitions(t1) + train_transitions(t2),
    decreases t2.len(),
{
    if t2.len() == 0 {
        assert(t1 + t2 =~= t1);
        assert(train_transitions(t1) + train_transitions(t2) =~= train_transitions(t1));
    } else {
        lemma_train_transitions_concat(t1, t2.drop_last());
        assert((t1 + t2).drop_last() =~= t1 + t2.drop_last());
        assert((t1 + t2).last() == t2.last());
        assert(train_transitions(t1 + t2) =~= train_transitions(t1) + train_transitions(t2));
    }
}

/// A single training pair gives one reference transition for each adjacent
/// cell pair of its grid, in order: the input and output colours of the
/// first cell, then of the second.
pub proof fn lemma_train_transitions_single(p: Pair)
    ensures
        ({
            let adj = grid_adjacency(p.input.h as nat, p.input.w as nat, p.input.h as nat);
            let refs = train_transitions(seq![p]);
            let w = p.input.w as int;
            &&& refs.len() == adj.len()
            &&& forall|j: int|
                0 <= j < adj.len() ==> #[trigger] refs[j] == (
                    p.input.data@[adj[j][0] * w + adj[j][1]],
                    p.output.data@[adj[j][0] * w + adj[j][1]],
                    p.input.data@[adj[j][2] * w + adj[j][3]],
                    p.output.data@[adj[j][2] * w + adj[j][3]],
                )
        }),
{
    assert(seq![p].drop_last() =~= Seq::<Pair>::empty());
    assert(seq![p].last() == p);
    assert(train_transitions(Seq::<Pair>::empty()) =~= Seq::<(i32, i32, i32, i32)>::empty());
    assert(train_transitions(seq![p]) =~= pair_transitions(p));
}

/// The matches of a transition against two lists of references, one after
/// the other, are the sum of its matches against each.
pub proof fn lemma_total_matches_concat(
    r1: Seq<(i32, i32, i32, i32)>,
    r2: Seq<(i32, i32, i32, i32)>,
    t: (i32, i32, i32, i32),
)
    ensures
        total_matches(r1 + r2, t) == total_matches(r1, t) + total_matches(r2, t),
    decreases r2.len(),
{
    if r2.len() == 0 {
        assert(r1 + r2 =~= r1);
    } else {
        lemma_total_matches_concat(r1, r2.drop_last(), t);
        assert((r1 + r2).drop_last() =~= r1 + r2.drop_last());
        assert((r1 + r2).last() == r2.last());
    }
}

} // verus!
