//! Candidate outputs as colour-index vectors: their enumeration in
//! mixed radix, their count, the candidate of a known grid, and the rank
//! that a count of better-scoring candidates gives.
use crate::task::{color_index, color_index_table, is_color, lemma_color_index, lookup_color, N_COLORS};
use vstd::arithmetic::div_mod::{lemma_fundamental_div_mod_converse, lemma_mod_breakdown};
use vstd::arithmetic::mul::lemma_mul_is_commutative;
use vstd::arithmetic::power::{lemma_pow0, lemma_pow_positive};
use vstd::arithmetic::power::pow;
use vstd::prelude::*;

verus! {

/// Candidate spaces up to this size are ranked exhaustively; larger ones
/// by sampling.
pub const EXHAUSTIVE_LIMIT: u64 = 200_000_000;

/// Number of random candidates drawn when a space is ranked by sampling.
pub const SAMPLE_COUNT: u64 = 10_000_000;

/// Candidate counts are reported capped at this value.
pub const REPORTED_CANDIDATES_CAP: u64 = 2_000_000_000;

/// The `n` base-`base` digits of `x`, most significant first (`x` is taken
/// modulo `base^n`).
pub open spec fn mixed_radix_digits(x: nat, base: nat, n: nat) -> Seq<nat>
    decreases n,
{
    if n == 0 {
        Seq::empty()
    } else {
        mixed_radix_digits(x / base, base, (n - 1) as nat).push(x % base)
    }
}

/// The number whose base-`base` digits, most significant first, are `d`.
pub open spec fn mixed_radix_value(d: Seq<nat>, base: nat) -> nat
    decreases d.len(),
{
    if d.len() == 0 {
        0
    } else {
        mixed_radix_value(d.drop_last(), base) * base + d.last()
    }
}

/// Writes into `out[0..hw]` the `hw` base-`nc` digits of `idx`, most
/// significant first: the `idx`-th candidate in the enumeration order.
/// Entries of `out` from `hw` on are left as they were.
pub fn flat_to_indices(idx: u64, nc: usize, hw: usize, out: &mut [usize])
    requires
        hw <= old(out)@.len(),
        hw == 0 || nc > 0,
    ensures
        final(out)@.len() == old(out)@.len(),
        forall|i: int|
            0 <= i < hw ==> #[trigger] final(out)@[i] as nat == mixed_radix_digits(
                idx as nat,
                nc as nat,
                hw as nat,
            )[i],
        forall|i: int| hw <= i < old(out)@.len() ==> #[trigger] final(out)@[i] == old(out)@[i],
{
    let ghost digits = mixed_radix_digits(idx as nat, nc as nat, hw as nat);
    let base = nc as u64;
    let mut rest = idx;
    let mut i = hw;
    while i > 0
        invariant
            i <= hw,
            hw <= out@.len(),
            out@.len() == old(out)@.len(),
            hw == 0 || nc > 0,
            base == nc,
            digits == mixed_radix_digits(idx as nat, nc as nat, hw as nat),
            digits == mixed_radix_digits(rest as nat, nc as nat, i as nat) + out@.subrange(
                i as int,
                hw as int,
            ).map_values(|d: usize| d as nat),
            forall|k: int| hw <= k < out@.len() ==> #[trigger] out@[k] == old(out)@[k],
        decreases i,
    {
        let ghost before = out@;
        let ghost rest0 = rest;
        i -= 1;
        let d = (rest % base) as usize;
        out[i] = d;
        rest = rest / base;
        assert(out@.subrange(i as int, hw as int).map_values(|d: usize| d as nat) =~= seq![
            d as nat,
        ] + before.subrange(i + 1, hw as int).map_values(|d: usize| d as nat));
        assert(mixed_radix_digits(rest0 as nat, nc as nat, (i + 1) as nat) == mixed_radix_digits(
            rest as nat,
            nc as nat,
            i as nat,
        ).push(d as nat));
        assert(digits =~= mixed_radix_digits(rest as nat, nc as nat, i as nat) + out@.subrange(
            i as int,
            hw as int,
        ).map_values(|d: usize| d as nat));
    }
    assert forall|k: int| 0 <= k < hw implies #[trigger] out@[k] as nat == digits[k] by {
        assert(out@.subrange(0, hw as int).map_values(|d: usize| d as nat)[k] == out@[k] as nat);
    }
}


/// There are `n` digits, each below the base.
pub proof fn lemma_digits_in_range(x: nat, base: nat, n: nat)
    requires
        base > 0,
    ensures
        mixed_radix_digits(x, base, n).len() == n,
        forall|i: int| 0 <= i < n ==> #[trigger] mixed_radix_digits(x, base, n)[i] < base,
    decreases n,
{
    if n > 0 {
        lemma_digits_in_range(x / base, base, (n - 1) as nat);
    }
}

/// Reading the `n` digits of `x` back gives `x` modulo `base^n`: below
/// `base^n`, the enumeration index is recovered from its candidate.
pub proof fn lemma_digits_value(x: nat, base: nat, n: nat)
    requires
        base > 0,
    ensures
        mixed_radix_value(mixed_radix_digits(x, base, n), base) == x % (pow(base as int, n) as nat),
    decreases n,
{
    if n == 0 {
        lemma_pow0(base as int);
    } else {
        let m = (n - 1) as nat;
        lemma_digits_value(x / base, base, m);
        let p = pow(base as int, m);
        lemma_pow_positive(base as int, m);
        reveal(pow);
        assert(pow(base as int, n) == base * p);
        lemma_mod_breakdown(x as int, base as int, p);
        let d = mixed_radix_digits(x, base, n);
        assert(d.drop_last() =~= mixed_radix_digits(x / base, base, m));
        lemma_mul_is_commutative((x / base) as int % p, base as int);
    }
}

/// A candidate whose `n` entries are all below the base is the digit list
/// of its value, and that value is below `base^n`: every candidate occurs
/// in the enumeration, at exactly one index below `base^n`.
pub proof fn lemma_value_digits(d: Seq<nat>, base: nat)
    requires
        base > 0,
        forall|i: int| 0 <= i < d.len() ==> #[trigger] d[i] < base,
    ensures
        mixed_radix_value(d, base) < pow(base as int, d.len()),
        mixed_radix_digits(mixed_radix_value(d, base), base, d.len()) == d,
    decreases d.len(),
{
    if d.len() == 0 {
        lemma_pow0(base as int);
        assert(mixed_radix_digits(0, base, 0) =~= d);
    } else {
        let p = d.drop_last();
        lemma_value_digits(p, base);
        let q = mixed_radix_value(p, base);
        let v = mixed_radix_value(d, base);
        let last = d.last();
        assert(last < base);
        lemma_fundamental_div_mod_converse(v as int, base as int, q as int, last as int);
        let big = pow(base as int, p.len());
        reveal(pow);
        assert(pow(base as int, d.len()) == base * big);
        assert(q * base + last < big * base) by (nonlinear_arith)
            requires
                q < big,
                last < base,
        ;
        lemma_mul_is_commutative(big, base as int);
        assert(mixed_radix_digits(v, base, d.len()) =~= p.push(last));
        assert(p.push(last) =~= d);
    }
}

/// `nc` to the power `hw`, or `u64::MAX` when that does not fit in a `u64`.
/// The exponent is `hw` taken as a `u32`.
pub open spec fn candidate_count_spec(nc: u64, e: u32) -> u64 {
    if pow(nc as int, e as nat) <= u64::MAX {
        pow(nc as int, e as nat) as u64
    } else {
        u64::MAX
    }
}

/// Number of candidates, `nc^hw` with `nc` colours and `hw` cells,
/// saturated at `u64::MAX` (the exponent is `hw as u32`).
pub fn candidate_count(nc: usize, hw: usize) -> (n: u64)
    ensures
        n == candidate_count_spec(nc as u64, #[verifier::truncate] (hw as u32)),
{
    let base = nc as u64;
    let e = #[verifier::truncate] (hw as u32);
    let mut acc: u64 = 1;
    let mut k: u32 = 0;
    proof {
        lemma_pow0(base as int);
    }
    while k < e
        invariant
            k <= e,
            e == #[verifier::truncate] (hw as u32),
            base == nc as u64,
            acc == pow(base as int, k as nat),
        decreases e - k,
    {
        match acc.checked_mul(base) {
            Some(v) => {
                acc = v;
                proof {
                    reveal(pow);
                    assert(pow(base as int, (k + 1) as nat) == base * pow(base as int, k as nat));
                    lemma_mul_is_commutative(base as int, pow(base as int, k as nat));
                }
            },
            None => {
                proof {
                    reveal(pow);
                    assert(pow(base as int, (k + 1) as nat) == base * pow(base as int, k as nat));
                    lemma_mul_is_commutative(base as int, pow(base as int, k as nat));
                    assert(base > 0) by (nonlinear_arith)
                        requires
                            acc * base > u64::MAX,
                    ;
                    vstd::arithmetic::power::lemma_pow_increases(
                        base as nat,
                        (k + 1) as nat,
                        e as nat,
                    );
                }
                return u64::MAX;
            },
        }
        k += 1;
    }
    acc
}


/// The candidate (colour indices into `used`) that spells the grid cells
/// `data`, or `None` when some cell has a colour outside `used`. A colour
/// listed more than once maps to its last position.
pub fn candidate_of_grid(used: &[i32], data: &[i32]) -> (cand: Option<Vec<usize>>)
    requires
        forall|k: int| 0 <= k < used@.len() ==> is_color(#[trigger] used@[k]),
    ensures
        cand is None <==> exists|j: int| 0 <= j < data@.len() && !used@.contains(#[trigger] data@[j]),
        cand matches Some(v) ==> v@.len() == data@.len() && forall|j: int|
            0 <= j < data@.len() ==> color_index(used@, data@[j]) == Some(#[trigger] v@[j] as int),
{
    let c2i = color_index_table(used);
    let mut cand: Vec<usize> = Vec::new();
    let mut j: usize = 0;
    while j < data.len()
        invariant
            j <= data@.len(),
            c2i@.len() == N_COLORS,
            forall|k: int| 0 <= k < used@.len() ==> is_color(#[trigger] used@[k]),
            forall|c: i32|
                is_color(c) ==> (#[trigger] c2i@[c as int] matches Some(p) ==> color_index(used@, c)
                    == Some(p as int)) && (c2i@[c as int] is None ==> color_index(used@, c) is None),
            cand@.len() == j,
            forall|k: int| 0 <= k < j ==> color_index(used@, data@[k]) == Some(#[trigger] cand@[k] as int),
        decreases data@.len() - j,
    {
        let c = data[j];
        proof {
            lemma_color_index(used@, c);
        }
        match lookup_color(&c2i, c) {
            Some(p) => {
                cand.push(p);
            },
            None => {
                proof {
                    if used@.contains(c) {
                        let k = choose|k: int| 0 <= k < used@.len() && used@[k] == c;
                        assert(is_color(used@[k]));
                    }
                }
                assert(!used@.contains(data@[j as int]));
                return None;
            },
        }
        j += 1;
    }
    proof {
        assert forall|k: int| 0 <= k < data@.len() implies used@.contains(#[trigger] data@[k]) by {
            lemma_color_index(used@, data@[k]);
            assert(used@[cand@[k] as int] == data@[k]);
        }
    }
    Some(cand)
}

/// A candidate that `candidate_of_grid` accepts spells the grid back:
/// each cell's colour is the colour listed at the cell's index.
pub proof fn lemma_candidate_spells_grid(used: Seq<i32>, data: Seq<i32>, cand: Seq<usize>)
    requires
        cand.len() == data.len(),
        forall|j: int| 0 <= j < data.len() ==> color_index(used, data[j]) == Some(#[trigger] cand[j] as int),
    ensures
        forall|j: int| 0 <= j < data.len() ==> #[trigger] cand[j] < used.len() && used[cand[j] as int] == data[j],
{
    assert forall|j: int| 0 <= j < data.len() implies #[trigger] cand[j] < used.len() && used[cand[j] as int]
        == data[j] by {
        lemma_color_index(used, data[j]);
    }
}

/// The integer part of a solver's report on one task: the rank of the
/// correct answer, whether it was ranked first, how many candidates there
/// were (capped) and how many reference lines were used.
#[derive(Debug, Clone, Copy, PartialEq, Eq)]
pub struct RankSummary {
    pub rank: u64,
    pub solved: bool,
    pub n_candidates: u64,
    pub total_trans: usize,
}

/// The candidate count that is reported: `n_total` capped at two billion.
pub fn reported_candidates(n_total: u64) -> (n: u64)
    ensures
        n == (if n_total <= REPORTED_CANDIDATES_CAP { n_total } else { REPORTED_CANDIDATES_CAP }),
{
    if n_total <= REPORTED_CANDIDATES_CAP {
        n_total
    } else {
        REPORTED_CANDIDATES_CAP
    }
}

/// Rank and success flag of an exhaustive ranking in which `better`
/// candidates scored strictly below the correct one: the correct answer is
/// ranked right after them, and the task is solved when none did.
pub fn exhaustive_rank(better: u64) -> (res: (u64, bool))
    requires
        better < u64::MAX,
    ensures
        res.0 == better + 1,
        res.1 == (better == 0),
{
    (better + 1, better == 0)
}

/// Seed of the `si`-th sampled candidate when a candidate space is ranked
/// by sampling.
pub fn sample_seed(seed: u64, si: u64) -> (s: u64)
    ensures
        s == ((seed + si) % 0x1_0000_0000_0000_0000 * 6971) % 0x1_0000_0000_0000_0000,
{
    seed.wrapping_add(si).wrapping_mul(6971)
}

/// Seed of the `si`-th sampled candidate in the histogram-aware pipeline.
pub fn pipeline_sample_seed(seed: u64, si: u64) -> (s: u64)
    ensures
        s == (seed + si) % 0x1_0000_0000_0000_0000,
{
    seed.wrapping_add(si)
}


/// Keeps the columns `valid` of a matrix with 6 rows and `n` columns stored
/// row-major, in the order `valid` lists them; when `valid` names as many
/// columns as there are, the matrix is returned as it is.
pub fn compact_columns<T: Copy>(m: &[T], n: usize, valid: &[usize]) -> (r: Vec<T>)
    requires
        valid@.len() != n ==> 6 * n <= m@.len(),
        valid@.len() != n ==> forall|t: int| 0 <= t < valid@.len() ==> #[trigger] valid@[t] < n,
        6 * valid@.len() <= usize::MAX,
    ensures
        valid@.len() == n ==> r@ == m@,
        valid@.len() != n ==> r@.len() == 6 * valid@.len() && forall|k: int, t: int|
            0 <= k < 6 && 0 <= t < valid@.len() ==> #[trigger] r@[k * valid@.len() + t] == m@[k * n
                + valid@[t]],
{
    let vn = valid.len();
    let mut r: Vec<T> = Vec::new();
    if vn == n {
        let mut i: usize = 0;
        while i < m.len()
            invariant
                i <= m@.len(),
                r@ == m@.take(i as int),
            decreases m@.len() - i,
        {
            r.push(m[i]);
            i += 1;
            assert(r@ =~= m@.take(i as int));
        }
        assert(m@.take(m@.len() as int) =~= m@);
        return r;
    }
    let len = m.len();
    let mut k: usize = 0;
    while k < 6
        invariant
            len == m@.len(),
            vn == valid@.len(),
            vn != n,
            6 * n <= m@.len(),
            6 * vn <= usize::MAX,
            forall|t: int| 0 <= t < vn ==> #[trigger] valid@[t] < n,
            k <= 6,
            r@.len() == k * vn,
            forall|k2: int, t: int|
                0 <= k2 < k && 0 <= t < vn ==> #[trigger] r@[k2 * vn + t] == m@[k2 * n + valid@[t]],
        decreases 6 - k,
    {
        let mut t: usize = 0;
        while t < vn
            invariant
                len == m@.len(),
                vn == valid@.len(),
                6 * n <= m@.len(),
                6 * vn <= usize::MAX,
                forall|t: int| 0 <= t < vn ==> #[trigger] valid@[t] < n,
                k < 6,
                t <= vn,
                r@.len() == k * vn + t,
                forall|k2: int, t2: int|
                    0 <= k2 < k && 0 <= t2 < vn ==> #[trigger] r@[k2 * vn + t2] == m@[k2 * n
                        + valid@[t2]],
                forall|t2: int| 0 <= t2 < t ==> #[trigger] r@[k * vn + t2] == m@[k * n + valid@[t2]],
            decreases vn - t,
        {
            let c = valid[t];
            assert(k * n + c < 6 * n) by (nonlinear_arith)
                requires
                    k < 6,
                    c < n,
            ;
            assert(k * vn + t < 6 * vn) by (nonlinear_arith)
                requires
                    k < 6,
                    t < vn,
            ;
            let ghost prev = r@;
            r.push(m[k * n + c]);
            assert forall|k2: int, t2: int| 0 <= k2 < k && 0 <= t2 < vn implies #[trigger] r@[k2
                * vn + t2] == m@[k2 * n + valid@[t2]] by {
                assert(k2 * vn + t2 < k * vn) by (nonlinear_arith)
                    requires
                        k2 < k,
                        t2 < vn,
                ;
                assert(r@[k2 * vn + t2] == prev[k2 * vn + t2]);
            }
            t += 1;
        }
        assert((k + 1) * vn == k * vn + vn) by (nonlinear_arith);
        assert forall|k2: int, t2: int| 0 <= k2 < k + 1 && 0 <= t2 < vn implies #[trigger] r@[k2
            * vn + t2] == m@[k2 * n + valid@[t2]] by {
            if k2 < k {
                assert(k2 * vn + t2 < k * vn) by (nonlinear_arith)
                    requires
                        k2 < k,
                        t2 < vn,
                ;
            }
        }
        k += 1;
    }
    r
}

} // verus!
