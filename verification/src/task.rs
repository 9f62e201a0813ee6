use crate::seq_facts::lemma_concat_contains;
use vstd::prelude::*;

verus! {

/// Number of distinct ARC colours (0..=9).
pub const N_COLORS: usize = 10;

/// Largest grid side that ARC tasks use.
pub const MAX_GRID_DIM: usize = 30;

/// A grid of colours, stored row-major.
#[derive(Debug, Clone)]
pub struct Grid {
    pub h: usize,
    pub w: usize,
    pub data: Vec<i32>,
}

/// Row-major concatenation of a list of rows.
pub open spec fn flatten_rows(rows: Seq<Seq<i32>>) -> Seq<i32>
    decreases rows.len(),
{
    if rows.len() == 0 {
        Seq::empty()
    } else {
        flatten_rows(rows.drop_last()) + rows.last()
    }
}

/// The rows of a raw grid as mathematical sequences.
pub open spec fn rows_view(raw: Seq<Vec<i32>>) -> Seq<Seq<i32>> {
    raw.map_values(|row: Vec<i32>| row@)
}

impl Grid {
    /// Builds a grid from its rows: the height is the number of rows, the
    /// width is the length of the first row, and the cells are the rows
    /// concatenated in order.
    pub fn from_raw(raw: &[Vec<i32>]) -> (g: Grid)
        ensures
            g.h == raw@.len(),
            g.w == (if raw@.len() > 0 { raw@[0]@.len() } else { 0 }),
            g.data@ == flatten_rows(rows_view(raw@)),
    {
        let h = raw.len();
        let w = if h > 0 { raw[0].len() } else { 0 };
        let mut data: Vec<i32> = Vec::new();
        let mut i: usize = 0;
        while i < h
            invariant
                h == raw@.len(),
                i <= h,
                data@ == flatten_rows(rows_view(raw@).take(i as int)),
            decreases h - i,
        {
            let row = &raw[i];
            let ghost before = data@;
            let mut j: usize = 0;
            while j < row.len()
                invariant
                    j <= row@.len(),
                    data@ == before + row@.take(j as int),
                decreases row@.len() - j,
            {
                data.push(row[j]);
                j += 1;
                assert(data@ =~= before + row@.take(j as int));
            }
            assert(row@.take(row@.len() as int) =~= row@);
            assert(rows_view(raw@).take(i + 1).drop_last() =~= rows_view(raw@).take(i as int));
            i += 1;
        }
        assert(rows_view(raw@).take(h as int) =~= rows_view(raw@));
        Grid { h, w, data }
    }
}


impl Grid {
    /// The colour at row `r`, column `c`.
    pub fn get(&self, r: usize, c: usize) -> (v: i32)
        requires
            r * self.w + c < self.data@.len(),
        ensures
            v == self.data@[r * self.w + c],
    {
        let n = self.data.len();
        proof {
            assert(0 <= r * self.w) by (nonlinear_arith);
        }
        self.data[r * self.w + c]
    }
}

/// A training or test example: an input grid and the expected output grid.
#[derive(Debug, Clone)]
pub struct Pair {
    pub input: Grid,
    pub output: Grid,
}

/// A task: its name, its training pairs and its (first) test pair.
#[derive(Debug, Clone)]
pub struct ArcTask {
    pub name: String,
    pub train: Vec<Pair>,
    pub test_input: Grid,
    pub test_output: Grid,
}

/// The input and output grids of `p` have the same shape.
pub open spec fn pair_same_size(p: Pair) -> bool {
    p.input.h == p.output.h && p.input.w == p.output.w
}

/// Input and output of every training pair have the same shape, and so do
/// the test input and output.
pub open spec fn same_size_spec(task: ArcTask) -> bool {
    &&& forall|i: int| 0 <= i < task.train@.len() ==> #[trigger] pair_same_size(task.train@[i])
    &&& task.test_input.h == task.test_output.h
    &&& task.test_input.w == task.test_output.w
}

impl ArcTask {
    /// Whether every input grid of the task has the shape of its output grid.
    pub fn is_same_size(&self) -> (b: bool)
        ensures
            b == same_size_spec(*self),
    {
        let mut i: usize = 0;
        while i < self.train.len()
            invariant
                i <= self.train@.len(),
                forall|k: int| 0 <= k < i ==> #[trigger] pair_same_size(self.train@[k]),
            decreases self.train@.len() - i,
        {
            let p = &self.train[i];
            if p.input.h != p.output.h || p.input.w != p.output.w {
                assert(!pair_same_size(self.train@[i as int]));
                return false;
            }
            i += 1;
        }
        self.test_input.h == self.test_output.h && self.test_input.w == self.test_output.w
    }
}

/// An example as it is written in a task file: rows of colours.
#[derive(Debug, Clone)]
pub struct RawPair {
    pub input: Vec<Vec<i32>>,
    pub output: Vec<Vec<i32>>,
}

/// A task as it is written in a task file.
#[derive(Debug, Clone)]
pub struct RawTask {
    pub train: Vec<RawPair>,
    pub test: Vec<RawPair>,
}

/// Why a task file does not make a usable task.
#[derive(Debug, Clone, Copy, PartialEq, Eq)]
pub enum TaskError {
    /// The file has fewer than two training pairs.
    TooFewTrainPairs,
    /// The file has no test pair.
    NoTestPairs,
}

impl TaskError {
    /// The message that the error is reported with.
    pub fn message(&self) -> (m: String)
        ensures
            m@ == (match *self {
                TaskError::TooFewTrainPairs => "fewer than 2 training pairs"@,
                TaskError::NoTestPairs => "no test pairs"@,
            }),
    {
        match self {
            TaskError::TooFewTrainPairs => String::from_str("fewer than 2 training pairs"),
            TaskError::NoTestPairs => String::from_str("no test pairs"),
        }
    }
}

/// `g` is the grid made of the rows `rows` (see `Grid::from_raw`).
pub open spec fn is_grid_of(g: Grid, rows: Seq<Vec<i32>>) -> bool {
    &&& g.h == rows.len()
    &&& g.w == (if rows.len() > 0 { rows[0]@.len() } else { 0 })
    &&& g.data@ == flatten_rows(rows_view(rows))
}

/// `p` is the pair made of the raw pair `raw`.
pub open spec fn is_pair_of(p: Pair, raw: RawPair) -> bool {
    is_grid_of(p.input, raw.input@) && is_grid_of(p.output, raw.output@)
}

/// Turns a parsed task file into a task named `name`: every training pair
/// is kept, and the first test pair becomes the test input and output.
/// A file with fewer than two training pairs, or with no test pair, is
/// refused (the first reason wins).
pub fn task_from_raw(name: String, raw: &RawTask) -> (res: Result<ArcTask, TaskError>)
    ensures
        raw.train@.len() < 2 ==> res == Err::<ArcTask, TaskError>(TaskError::TooFewTrainPairs),
        raw.train@.len() >= 2 && raw.test@.len() == 0 ==> res == Err::<ArcTask, TaskError>(
            TaskError::NoTestPairs,
        ),
        raw.train@.len() >= 2 && raw.test@.len() > 0 ==> (res matches Ok(t) && {
            &&& t.name == name
            &&& t.train@.len() == raw.train@.len()
            &&& forall|i: int|
                0 <= i < raw.train@.len() ==> is_pair_of(#[trigger] t.train@[i], raw.train@[i])
            &&& is_grid_of(t.test_input, raw.test@[0].input@)
            &&& is_grid_of(t.test_output, raw.test@[0].output@)
        }),
{
    if raw.train.len() < 2 {
        return Err(TaskError::TooFewTrainPairs);
    }
    if raw.test.len() == 0 {
        return Err(TaskError::NoTestPairs);
    }
    let mut train: Vec<Pair> = Vec::new();
    let mut i: usize = 0;
    while i < raw.train.len()
        invariant
            i <= raw.train@.len(),
            train@.len() == i,
            forall|k: int| 0 <= k < i ==> is_pair_of(#[trigger] train@[k], raw.train@[k]),
        decreases raw.train@.len() - i,
    {
        let input = Grid::from_raw(raw.train[i].input.as_slice());
        let output = Grid::from_raw(raw.train[i].output.as_slice());
        train.push(Pair { input, output });
        i += 1;
    }
    let test_input = Grid::from_raw(raw.test[0].input.as_slice());
    let test_output = Grid::from_raw(raw.test[0].output.as_slice());
    Ok(ArcTask { name, train, test_input, test_output })
}


/// `c` is one of the ten ARC colours.
pub open spec fn is_color(c: i32) -> bool {
    0 <= c < N_COLORS
}

/// Some cell of `g` has colour `c`.
pub open spec fn grid_has_color(g: Grid, c: i32) -> bool {
    g.data@.contains(c)
}

/// The input or the output of `p` has colour `c`.
pub open spec fn pair_has_color(p: Pair, c: i32) -> bool {
    grid_has_color(p.input, c) || grid_has_color(p.output, c)
}

/// Colour `c` occurs in some training grid or in the test input (the test
/// output, which a solver may not look at, does not count).
pub open spec fn task_uses_color(task: ArcTask, c: i32) -> bool {
    ||| exists|i: int| 0 <= i < task.train@.len() && #[trigger] pair_has_color(task.train@[i], c)
    ||| grid_has_color(task.test_input, c)
}

/// Sets `seen[c]` for every colour `c` that occurs in `data`.
fn mark_colors(seen: &mut Vec<bool>, data: &Vec<i32>)
    requires
        old(seen)@.len() == N_COLORS,
    ensures
        final(seen)@.len() == N_COLORS,
        forall|c: i32|
            is_color(c) ==> (#[trigger] final(seen)@[c as int] == (old(seen)@[c as int]
                || data@.contains(c))),
{
    let mut j: usize = 0;
    while j < data.len()
        invariant
            j <= data@.len(),
            seen@.len() == N_COLORS,
            old(seen)@.len() == N_COLORS,
            forall|c: i32|
                is_color(c) ==> (#[trigger] seen@[c as int] == (old(seen)@[c as int]
                    || data@.take(j as int).contains(c))),
        decreases data@.len() - j,
    {
        let v = data[j];
        let ghost prev = seen@;
        if 0 <= v && v < 10 {
            seen.set(v as usize, true);
        }
        proof {
            assert forall|c: i32| is_color(c) implies (#[trigger] seen@[c as int] == (
            old(seen)@[c as int] || data@.take(j + 1).contains(c))) by {
                assert(prev[c as int] == (old(seen)@[c as int] || data@.take(j as int).contains(c)));
                if c == v {
                    assert(data@.take(j + 1)[j as int] == c);
                }
                if data@.take(j as int).contains(c) {
                    let k = choose|k: int| 0 <= k < j && #[trigger] data@.take(j as int)[k] == c;
                    assert(data@.take(j + 1)[k] == c);
                }
                if data@.take(j + 1).contains(c) {
                    let k = choose|k: int| 0 <= k < j + 1 && #[trigger] data@.take(j + 1)[k] == c;
                    if k < j {
                        assert(data@.take(j as int)[k] == c);
                    }
                }
            }
        }
        j += 1;
    }
    assert(data@.take(data@.len() as int) =~= data@);
}

/// `used` lists, in strictly increasing order, exactly the colours that the
/// task uses.
pub open spec fn is_used_colors(task: ArcTask, used: Seq<i32>) -> bool {
    &&& forall|i: int, j: int| 0 <= i < j < used.len() ==> used[i] < used[j]
    &&& forall|i: int|
        0 <= i < used.len() ==> is_color(#[trigger] used[i]) && task_uses_color(task, used[i])
    &&& forall|c: i32| is_color(c) && task_uses_color(task, c) ==> #[trigger] used.contains(c)
}

/// The colours that the task uses (see `task_uses_color`), in increasing order.
pub fn used_colors(task: &ArcTask) -> (used: Vec<i32>)
    ensures
        is_used_colors(*task, used@),
        used@.len() <= N_COLORS,
{
    let mut seen: Vec<bool> = vec![false; 10];
    let mut i: usize = 0;
    while i < task.train.len()
        invariant
            i <= task.train@.len(),
            seen@.len() == N_COLORS,
            forall|c: i32|
                is_color(c) ==> (#[trigger] seen@[c as int] == exists|k: int|
                    0 <= k < i && #[trigger] pair_has_color(task.train@[k], c)),
        decreases task.train@.len() - i,
    {
        let ghost before = seen@;
        mark_colors(&mut seen, &task.train[i].input.data);
        mark_colors(&mut seen, &task.train[i].output.data);
        proof {
            assert forall|c: i32| is_color(c) implies (#[trigger] seen@[c as int] == exists|k: int|
                0 <= k < i + 1 && #[trigger] pair_has_color(task.train@[k], c)) by {
                if pair_has_color(task.train@[i as int], c) {
                }
                if exists|k: int| 0 <= k < i + 1 && #[trigger] pair_has_color(task.train@[k], c) {
                    let k = choose|k: int|
                        0 <= k < i + 1 && #[trigger] pair_has_color(task.train@[k], c);
                    if k < i {
                    }
                }
            }
        }
        i += 1;
    }
    mark_colors(&mut seen, &task.test_input.data);
    let mut used: Vec<i32> = Vec::new();
    let mut c: i32 = 0;
    while c < 10
        invariant
            0 <= c <= 10,
            seen@.len() == N_COLORS,
            forall|x: i32| is_color(x) ==> (#[trigger] seen@[x as int] == task_uses_color(*task, x)),
            forall|a: int, b: int| 0 <= a < b < used@.len() ==> used@[a] < used@[b],
            forall|a: int| 0 <= a < used@.len() ==> 0 <= #[trigger] used@[a] < c,
            forall|a: int|
                0 <= a < used@.len() ==> is_color(#[trigger] used@[a]) && task_uses_color(
                    *task,
                    used@[a],
                ),
            forall|x: i32|
                is_color(x) && x < c && task_uses_color(*task, x) ==> #[trigger] used@.contains(x),
            used@.len() <= c,
        decreases 10 - c,
    {
        if seen[c as usize] {
            let ghost prev = used@;
            used.push(c);
            proof {
                assert forall|x: i32|
                    is_color(x) && x < c + 1 && task_uses_color(*task, x) implies #[trigger] used@.contains(
                    x,
                ) by {
                    if x == c {
                        assert(used@[used@.len() - 1] == c);
                    } else {
                        assert(prev.contains(x));
                        let a = choose|a: int| 0 <= a < prev.len() && prev[a] == x;
                        assert(used@[a] == x);
                    }
                }
            }
        }
        c += 1;
    }
    used
}

/// Adjacent cell pairs contributed by cell `(r, c)`: its right neighbour
/// first, then the one below, each only where it lies inside the grid.
pub open spec fn cell_adjacency(h: nat, w: nat, r: nat, c: nat) -> Seq<[usize; 4]> {
    (if c + 1 < w {
        seq![[r as usize, c as usize, r as usize, (c + 1) as usize]]
    } else {
        Seq::empty()
    }) + (if r + 1 < h {
        seq![[r as usize, c as usize, (r + 1) as usize, c as usize]]
    } else {
        Seq::empty()
    })
}

/// Adjacent pairs of the first `n` cells of row `r`, in column order.
pub open spec fn row_adjacency(h: nat, w: nat, r: nat, n: nat) -> Seq<[usize; 4]>
    decreases n,
{
    if n == 0 {
        Seq::empty()
    } else {
        row_adjacency(h, w, r, (n - 1) as nat) + cell_adjacency(h, w, r, (n - 1) as nat)
    }
}

/// Adjacent pairs of the first `m` rows of an `h` by `w` grid, row by row.
pub open spec fn grid_adjacency(h: nat, w: nat, m: nat) -> Seq<[usize; 4]>
    decreases m,
{
    if m == 0 {
        Seq::empty()
    } else {
        grid_adjacency(h, w, (m - 1) as nat) + row_adjacency(h, w, (m - 1) as nat, w)
    }
}

/// Every pair of orthogonally adjacent cells `(r1, c1, r2, c2)` of an `h` by
/// `w` grid, scanning cells row-major and giving for each cell its right
/// neighbour before the neighbour below.
pub fn adjacency_pairs(h: usize, w: usize) -> (pairs: Vec<[usize; 4]>)
    ensures
        pairs@ == grid_adjacency(h as nat, w as nat, h as nat),
{
    let mut pairs: Vec<[usize; 4]> = Vec::new();
    let mut r: usize = 0;
    while r < h
        invariant
            r <= h,
            pairs@ == grid_adjacency(h as nat, w as nat, r as nat),
        decreases h - r,
    {
        let mut c: usize = 0;
        let ghost before = pairs@;
        while c < w
            invariant
                r < h,
                c <= w,
                pairs@ == before + row_adjacency(h as nat, w as nat, r as nat, c as nat),
            decreases w - c,
        {
            let ghost mid = pairs@;
            if c + 1 < w {
                pairs.push([r, c, r, c + 1]);
            }
            if r + 1 < h {
                pairs.push([r, c, r + 1, c]);
            }
            assert(pairs@ =~= mid + cell_adjacency(h as nat, w as nat, r as nat, c as nat));
            c += 1;
        }
        r += 1;
    }
    pairs
}

/// The position of the first occurrence of `color` in `used`, if any.
pub fn color_to_idx(used: &[i32], color: i32) -> (idx: Option<usize>)
    ensures
        match idx {
            Some(i) => i < used@.len() && used@[i as int] == color && forall|k: int|
                0 <= k < i ==> used@[k] != color,
            None => !used@.contains(color),
        },
{
    let mut i: usize = 0;
    while i < used.len()
        invariant
            i <= used@.len(),
            forall|k: int| 0 <= k < i ==> used@[k] != color,
        decreases used@.len() - i,
    {
        if used[i] == color {
            return Some(i);
        }
        i += 1;
    }
    None
}


/// The colour index that a colour-to-index table built from `used` gives
/// colour `v`: the last position of `v` in `used`, if any.
pub open spec fn color_index(used: Seq<i32>, v: i32) -> Option<int>
    decreases used.len(),
{
    if used.len() == 0 {
        None
    } else if used.last() == v {
        Some(used.len() - 1)
    } else {
        color_index(used.drop_last(), v)
    }
}

/// `color_index` is the last position of the colour, and is absent exactly
/// when the colour is not listed.
pub proof fn lemma_color_index(used: Seq<i32>, v: i32)
    ensures
        match color_index(used, v) {
            Some(i) => 0 <= i < used.len() && used[i] == v && forall|k: int|
                i < k < used.len() ==> used[k] != v,
            None => !used.contains(v),
        },
    decreases used.len(),
{
    if used.len() > 0 && used.last() != v {
        let p = used.drop_last();
        lemma_color_index(p, v);
        if used.contains(v) {
            let k = choose|k: int| 0 <= k < used.len() && used[k] == v;
            assert(p[k] == v);
        }
        if let Some(i) = color_index(p, v) {
            assert forall|k: int| i < k < used.len() implies used[k] != v by {
                if k < used.len() - 1 {
                    assert(p[k] == used[k]);
                }
            }
        }
    }
}

/// A table from each of the ten colours to its index in `used` (the last
/// position where it is listed), `None` for colours not listed.
pub fn color_index_table(used: &[i32]) -> (c2i: Vec<Option<usize>>)
    requires
        forall|k: int| 0 <= k < used@.len() ==> is_color(#[trigger] used@[k]),
    ensures
        c2i@.len() == N_COLORS,
        forall|c: i32|
            is_color(c) ==> (#[trigger] c2i@[c as int] matches Some(p) ==> color_index(used@, c)
                == Some(p as int)) && (c2i@[c as int] is None ==> color_index(used@, c) is None),
{
    let mut c2i: Vec<Option<usize>> = vec![None; N_COLORS];
    let mut i: usize = 0;
    while i < used.len()
        invariant
            i <= used@.len(),
            c2i@.len() == N_COLORS,
            forall|k: int| 0 <= k < used@.len() ==> is_color(#[trigger] used@[k]),
            forall|c: i32|
                is_color(c) ==> (#[trigger] c2i@[c as int] matches Some(p) ==> color_index(
                    used@.take(i as int),
                    c,
                ) == Some(p as int)) && (c2i@[c as int] is None ==> color_index(
                    used@.take(i as int),
                    c,
                ) is None),
        decreases used@.len() - i,
    {
        let c = used[i];
        c2i.set(c as usize, Some(i));
        assert(used@.take(i + 1).drop_last() =~= used@.take(i as int));
        i += 1;
    }
    assert(used@.take(used@.len() as int) =~= used@);
    c2i
}

/// Looks a cell colour up in a colour-to-index table; colours outside
/// `0..10` have no index.
pub fn lookup_color(c2i: &Vec<Option<usize>>, v: i32) -> (idx: Option<usize>)
    requires
        c2i@.len() == N_COLORS,
    ensures
        idx == (if is_color(v) {
            c2i@[v as int]
        } else {
            None
        }),
{
    if 0 <= v && v < 10 {
        c2i[v as usize]
    } else {
        None
    }
}

proof fn lemma_sorted_same_elements(a: Seq<i32>, b: Seq<i32>)
    requires
        forall|i: int, j: int| 0 <= i < j < a.len() ==> a[i] < a[j],
        forall|i: int, j: int| 0 <= i < j < b.len() ==> b[i] < b[j],
        forall|x: i32| a.contains(x) <==> b.contains(x),
    ensures
        a == b,
    decreases a.len(),
{
    if a.len() == 0 {
        if b.len() > 0 {
            assert(b.contains(b[0]));
        }
        assert(a =~= b);
    } else {
        assert(a.contains(a[0]));
        let k = choose|k: int| 0 <= k < b.len() && b[k] == a[0];
        assert(b.contains(b[0]));
        let j = choose|j: int| 0 <= j < a.len() && a[j] == b[0];
        assert(a[0] == b[0]);
        let a1 = a.drop_first();
        let b1 = b.drop_first();
        assert forall|x: i32| a1.contains(x) <==> b1.contains(x) by {
            if a1.contains(x) {
                let p = choose|p: int| 0 <= p < a1.len() && a1[p] == x;
                assert(a[p + 1] == x);
                assert(b.contains(x));
                let q = choose|q: int| 0 <= q < b.len() && b[q] == x;
                assert(q != 0);
                assert(b1[q - 1] == x);
            }
            if b1.contains(x) {
                let p = choose|p: int| 0 <= p < b1.len() && b1[p] == x;
                assert(b[p + 1] == x);
                assert(a.contains(x));
                let q = choose|q: int| 0 <= q < a.len() && a[q] == x;
                assert(q != 0);
                assert(a1[q - 1] == x);
            }
        }
        lemma_sorted_same_elements(a1, b1);
        assert(a.len() == b.len());
        assert forall|i: int| 0 <= i < a.len() implies a[i] == b[i] by {
            if i > 0 {
                assert(a1[i - 1] == b1[i - 1]);
            }
        }
        assert(a =~= b);
    }
}

/// The colours offered to candidates do not depend on the test output:
/// two tasks with the same training pairs and test input use the same
/// colour list.
pub proof fn lemma_used_colors_ignore_test_output(t1: ArcTask, t2: ArcTask, u1: Seq<i32>, u2: Seq<i32>)
    requires
        t1.train@ == t2.train@,
        t1.test_input == t2.test_input,
        is_used_colors(t1, u1),
        is_used_colors(t2, u2),
    ensures
        u1 == u2,
{
    assert forall|x: i32| u1.contains(x) <==> u2.contains(x) by {
        if u1.contains(x) {
            let i = choose|i: int| 0 <= i < u1.len() && u1[i] == x;
            assert(is_color(u1[i]) && task_uses_color(t1, u1[i]));
            assert(task_uses_color(t2, x));
        }
        if u2.contains(x) {
            let i = choose|i: int| 0 <= i < u2.len() && u2[i] == x;
            assert(is_color(u2[i]) && task_uses_color(t2, u2[i]));
            assert(task_uses_color(t1, x));
        }
    }
    lemma_sorted_same_elements(u1, u2);
}

/// In a strictly increasing colour list, the index of each listed colour is
/// its position (first and last occurrences coincide).
pub proof fn lemma_color_index_sorted(used: Seq<i32>, i: int)
    requires
        forall|a: int, b: int| 0 <= a < b < used.len() ==> used[a] < used[b],
        0 <= i < used.len(),
    ensures
        color_index(used, used[i]) == Some(i),
{
    lemma_color_index(used, used[i]);
    assert(used.contains(used[i]));
}

/// `p = (r1, c1, r2, c2)` names two orthogonally adjacent cells of an `h` by
/// `w` grid, the second to the right of or below the first.
pub open spec fn is_adjacent_pair(h: nat, w: nat, p: [usize; 4]) -> bool {
    ||| p[0] == p[2] && p[3] == p[1] + 1 && p[2] < h && p[3] < w
    ||| p[1] == p[3] && p[2] == p[0] + 1 && p[2] < h && p[3] < w
}

proof fn lemma_cell_adjacency_contains(h: nat, w: nat, r: nat, c: nat, p: [usize; 4])
    requires
        r < h,
        c < w,
        h <= usize::MAX,
        w <= usize::MAX,
    ensures
        cell_adjacency(h, w, r, c).contains(p) <==> (is_adjacent_pair(h, w, p) && p[0] == r
            && p[1] == c),
{
    let right = [r as usize, c as usize, r as usize, (c + 1) as usize];
    let down = [r as usize, c as usize, (r + 1) as usize, c as usize];
    let s1: Seq<[usize; 4]> = if c + 1 < w { seq![right] } else { Seq::empty() };
    let s2: Seq<[usize; 4]> = if r + 1 < h { seq![down] } else { Seq::empty() };
    lemma_concat_contains(s1, s2, p);
    if is_adjacent_pair(h, w, p) && p[0] == r && p[1] == c {
        if p[0] == p[2] && p[3] == p[1] + 1 {
            assert(p@ =~= right@);
            assert(s1[0] == p);
        } else {
            assert(p@ =~= down@);
            assert(s2[0] == p);
        }
    }
    if s1.contains(p) {
        assert(s1[0] == p);
    }
    if s2.contains(p) {
        assert(s2[0] == p);
    }
}

proof fn lemma_row_adjacency_contains(h: nat, w: nat, r: nat, n: nat, p: [usize; 4])
    requires
        r < h,
        n <= w,
        h <= usize::MAX,
        w <= usize::MAX,
    ensures
        row_adjacency(h, w, r, n).contains(p) <==> (is_adjacent_pair(h, w, p) && p[0] == r
            && p[1] < n),
    decreases n,
{
    if n > 0 {
        lemma_row_adjacency_contains(h, w, r, (n - 1) as nat, p);
        lemma_cell_adjacency_contains(h, w, r, (n - 1) as nat, p);
        lemma_concat_contains(
            row_adjacency(h, w, r, (n - 1) as nat),
            cell_adjacency(h, w, r, (n - 1) as nat),
            p,
        );
    }
}

proof fn lemma_grid_adjacency_contains(h: nat, w: nat, m: nat, p: [usize; 4])
    requires
        m <= h,
        h <= usize::MAX,
        w <= usize::MAX,
    ensures
        grid_adjacency(h, w, m).contains(p) <==> (is_adjacent_pair(h, w, p) && p[0] < m),
    decreases m,
{
    if m > 0 {
        lemma_grid_adjacency_contains(h, w, (m - 1) as nat, p);
        lemma_row_adjacency_contains(h, w, (m - 1) as nat, w, p);
        lemma_concat_contains(
            grid_adjacency(h, w, (m - 1) as nat),
            row_adjacency(h, w, (m - 1) as nat, w),
            p,
        );
    }
}

/// The adjacency list of an `h` by `w` grid holds exactly the pairs of
/// orthogonally adjacent cells, each written with its upper or left cell
/// first.
pub proof fn lemma_adjacency_pairs_exact(h: usize, w: usize, p: [usize; 4])
    ensures
        grid_adjacency(h as nat, w as nat, h as nat).contains(p) <==> is_adjacent_pair(
            h as nat,
            w as nat,
            p,
        ),
{
    lemma_grid_adjacency_contains(h as nat, w as nat, h as nat, p);
}

proof fn lemma_row_adjacency_len(h: nat, w: nat, r: nat, n: nat)
    requires
        n <= w,
    ensures
        row_adjacency(h, w, r, n).len() == (if n == w && w > 0 { n - 1 } else { n as int }) + (if r + 1
            < h {
            n
        } else {
            0
        }),
    decreases n,
{
    if n > 0 {
        lemma_row_adjacency_len(h, w, r, (n - 1) as nat);
    }
}

/// An `h` by `w` grid with `h, w >= 1` has `h * (w - 1) + (h - 1) * w`
/// adjacent pairs.
pub proof fn lemma_adjacency_pairs_count(h: usize, w: usize)
    requires
        h >= 1,
        w >= 1,
    ensures
        grid_adjacency(h as nat, w as nat, h as nat).len() == h * (w - 1) + (h - 1) * w,
{
    lemma_grid_adjacency_len(h as nat, w as nat, h as nat);
}

proof fn lemma_grid_adjacency_len(h: nat, w: nat, m: nat)
    requires
        m <= h,
        w >= 1,
    ensures
        grid_adjacency(h, w, m).len() == m * (w - 1) + (if m == h && h > 0 { m - 1 } else { m as int })
            * w,
    decreases m,
{
    if m > 0 {
        lemma_grid_adjacency_len(h, w, (m - 1) as nat);
        lemma_row_adjacency_len(h, w, (m - 1) as nat, w);
        let k = (m - 1) as nat;
        assert(grid_adjacency(h, w, k).len() == k * (w - 1) + k * w);
        if m < h {
            assert(row_adjacency(h, w, k, w).len() == (w - 1) + w);
        } else {
            assert(row_adjacency(h, w, k, w).len() == w - 1);
        }
        assert(m * (w - 1) == (m - 1) * (w - 1) + (w - 1)) by (nonlinear_arith);
        assert(m * w == (m - 1) * w + w) by (nonlinear_arith);
        assert(grid_adjacency(h, w, m) == grid_adjacency(h, w, (m - 1) as nat) + row_adjacency(
            h,
            w,
            (m - 1) as nat,
            w,
        ));
        if m < h {
            assert(grid_adjacency(h, w, m).len() == m * (w - 1) + m * w);
        } else {
            assert(grid_adjacency(h, w, m).len() == m * (w - 1) + k * w);
        }
    } else {
        assert(m * (w - 1) == 0 && m * w == 0) by (nonlinear_arith)
            requires
                m == 0,
        ;
    }
}

} // verus!
