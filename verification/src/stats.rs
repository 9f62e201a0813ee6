//! Colour statistics of grids that the cell embeddings are built from:
//! counts of a colour, the number of distinct colours, the most frequent
//! colour, and the cells of a column.
use crate::seq_facts::{count_of, lemma_count_of_le_len, lemma_count_of_take_succ};
use crate::task::{is_color, N_COLORS};
use vstd::prelude::*;

verus! {

/// How many cells of `arr` have colour `v`.
pub fn count_val(arr: &[i32], v: i32) -> (n: usize)
    ensures
        n == count_of(arr@, v),
{
    let mut n: usize = 0;
    let mut i: usize = 0;
    while i < arr.len()
        invariant
            i <= arr@.len(),
            n == count_of(arr@.take(i as int), v),
        decreases arr@.len() - i,
    {
        proof {
            lemma_count_of_take_succ(arr@, i as int, v);
            lemma_count_of_le_len(arr@.take(i as int), v);
        }
        if arr[i] == v {
            n += 1;
        }
        i += 1;
    }
    assert(arr@.take(arr@.len() as int) =~= arr@);
    n
}

/// How many of the ten colours occur in `arr` (other values are ignored).
pub fn count_unique(arr: &[i32]) -> (n: usize)
    ensures
        n == Set::new(|c: i32| is_color(c) && arr@.contains(c)).len(),
        n <= N_COLORS,
{
    let mut seen: Vec<bool> = vec![false; N_COLORS];
    let mut i: usize = 0;
    while i < arr.len()
        invariant
            i <= arr@.len(),
            seen@.len() == N_COLORS,
            forall|c: i32| is_color(c) ==> (#[trigger] seen@[c as int] == arr@.take(i as int).contains(c)),
        decreases arr@.len() - i,
    {
        let v = arr[i];
        let ghost prev = seen@;
        if 0 <= v && v < 10 {
            seen.set(v as usize, true);
        }
        proof {
            assert forall|c: i32| is_color(c) implies (#[trigger] seen@[c as int] == arr@.take(
                i + 1,
            ).contains(c)) by {
                assert(prev[c as int] == arr@.take(i as int).contains(c));
                if c == v {
                    assert(arr@.take(i + 1)[i as int] == c);
                }
                if arr@.take(i as int).contains(c) {
                    let k = choose|k: int| 0 <= k < i && #[trigger] arr@.take(i as int)[k] == c;
                    assert(arr@.take(i + 1)[k] == c);
                }
                if arr@.take(i + 1).contains(c) {
                    let k = choose|k: int| 0 <= k < i + 1 && #[trigger] arr@.take(i + 1)[k] == c;
                    if k < i {
                        assert(arr@.take(i as int)[k] == c);
                    }
                }
            }
        }
        i += 1;
    }
    assert(arr@.take(arr@.len() as int) =~= arr@);
    let mut n: usize = 0;
    let mut c: usize = 0;
    let ghost mut found: Set<i32> = Set::empty();
    while c < N_COLORS
        invariant
            c <= N_COLORS,
            seen@.len() == N_COLORS,
            forall|x: i32| is_color(x) ==> (#[trigger] seen@[x as int] == arr@.contains(x)),
            found == Set::new(|x: i32| 0 <= x < c && arr@.contains(x)),
            found.finite(),
            n == found.len(),
            n <= c,
        decreases N_COLORS - c,
    {
        let ghost cc = c as i32;
        if seen[c] {
            proof {
                assert(!found.contains(cc));
                assert(Set::new(|x: i32| 0 <= x < c + 1 && arr@.contains(x)) =~= found.insert(cc));
                found = found.insert(cc);
            }
            n += 1;
        } else {
            assert(Set::new(|x: i32| 0 <= x < c + 1 && arr@.contains(x)) =~= found);
        }
        c += 1;
    }
    assert(found =~= Set::new(|c: i32| is_color(c) && arr@.contains(c)));
    n
}

/// The first of the ten colours with the largest positive count in `arr`,
/// or colour `0` when none of them occurs.
pub open spec fn is_color_mode(arr: Seq<i32>, m: i32) -> bool {
    &&& is_color(m)
    &&& forall|c: i32| is_color(c) ==> #[trigger] count_of(arr, c) <= count_of(arr, m)
    &&& forall|c: i32| 0 <= c < m ==> #[trigger] count_of(arr, c) < count_of(arr, m)
}

/// The most frequent of the ten colours in `arr`, the lowest one on ties;
/// `0` when no cell has one of the ten colours.
pub fn color_mode(arr: &[i32]) -> (m: i32)
    ensures
        (forall|c: i32| is_color(c) ==> #[trigger] count_of(arr@, c) == 0) ==> m == 0,
        (exists|c: i32| is_color(c) && #[trigger] count_of(arr@, c) > 0) ==> is_color_mode(arr@, m),
{
    let mut mode: i32 = 0;
    let mut max: usize = 0;
    let mut c: i32 = 0;
    while c < 10
        invariant
            0 <= c <= 10,
            is_color(mode),
            mode < c || (c == 0 && mode == 0),
            max == 0 ==> mode == 0,
            max == 0 ==> forall|x: i32| 0 <= x < c ==> #[trigger] count_of(arr@, x) == 0,
            max > 0 ==> max == count_of(arr@, mode),
            forall|x: i32| 0 <= x < c ==> #[trigger] count_of(arr@, x) <= max,
            max > 0 ==> forall|x: i32| 0 <= x < mode ==> #[trigger] count_of(arr@, x) < max,
        decreases 10 - c,
    {
        let k = count_val(arr, c);
        if k > max {
            max = k;
            mode = c;
        }
        c += 1;
    }
    proof {
        if exists|x: i32| is_color(x) && #[trigger] count_of(arr@, x) > 0 {
            let x = choose|x: i32| is_color(x) && #[trigger] count_of(arr@, x) > 0;
            assert(count_of(arr@, x) <= max);
        }
    }
    mode
}

/// The cells of column `c` of a grid with `h` rows and `w` columns, top to
/// bottom.
pub fn grid_column(inp: &[i32], h: usize, w: usize, c: usize) -> (col: Vec<i32>)
    requires
        forall|i: int| 0 <= i < h ==> #[trigger] (i * w) + c < inp@.len(),
    ensures
        col@.len() == h,
        forall|i: int| 0 <= i < h ==> #[trigger] col@[i] == inp@[i * w + c],
{
    let n = inp.len();
    let mut col: Vec<i32> = Vec::new();
    let mut i: usize = 0;
    while i < h
        invariant
            i <= h,
            n == inp@.len(),
            forall|k: int| 0 <= k < h ==> #[trigger] (k * w) + c < inp@.len(),
            col@.len() == i,
            forall|k: int| 0 <= k < i ==> #[trigger] col@[k] == inp@[k * w + c],
        decreases h - i,
    {
        assert((i as int * w) + c < inp@.len());
        col.push(inp[i * w + c]);
        i += 1;
    }
    col
}

} // verus!
