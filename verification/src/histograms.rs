//! Colour histograms of candidate grids: the enumeration of every
//! possible histogram (compositions of the cell count into colour bins,
//! in lexicographic order, truncated), the histogram of one candidate, and
//! its lookup in the enumeration.
use crate::seq_facts::{count_of, lemma_concat_contains, lemma_count_of_le_len, lemma_count_of_take_succ};
use vstd::prelude::*;

verus! {

/// Above this many possible histograms, histogram-aware scoring is not
/// used.
pub const MAX_HIST_TABLES: usize = 2000;

/// Sum of the entries of `s`.
pub open spec fn seq_sum(s: Seq<usize>) -> int
    decreases s.len(),
{
    if s.len() == 0 {
        0
    } else {
        seq_sum(s.drop_last()) + s.last()
    }
}

/// Every sequence `prefix + tail` where `tail` has `n >= 1` entries summing
/// to `rem` and, when `n > 1`, a first entry of at least `k`; in
/// lexicographic order of `tail`. This is the order in which the
/// enumeration below visits them.
pub open spec fn extensions(prefix: Seq<usize>, rem: nat, n: nat, k: nat) -> Seq<Seq<usize>>
    decreases n, rem + 1 - k,
{
    if n <= 1 {
        if k == 0 {
            seq![prefix.push(rem as usize)]
        } else {
            Seq::empty()
        }
    } else if k > rem {
        Seq::empty()
    } else {
        extensions(prefix.push(k as usize), (rem - k) as nat, (n - 1) as nat, 0) + extensions(
            prefix,
            rem,
            n,
            k + 1,
        )
    }
}

/// Every way of distributing `total` cells over `n` colour bins, in
/// lexicographic order.
pub open spec fn compositions(total: nat, n: nat) -> Seq<Seq<usize>> {
    extensions(Seq::empty(), total, n, 0)
}

/// `r` followed by as much of `add` as keeps appending while `r` holds at
/// most `cap` items: the list grows to at most `cap + 1` items, and a list
/// that is already longer than `cap` gets nothing.
pub open spec fn append_capped(r: Seq<Seq<usize>>, add: Seq<Seq<usize>>, cap: nat) -> Seq<
    Seq<usize>,
> {
    if r.len() > cap {
        r
    } else if add.len() <= cap + 1 - r.len() {
        r + add
    } else {
        r + add.take(cap + 1 - r.len())
    }
}

/// The histograms that `gen_all_histograms` lists: all compositions of
/// `total` into `nc` bins, cut after the first `max_count + 1`.
pub open spec fn histograms_spec(total: nat, nc: nat, max_count: nat) -> Seq<Seq<usize>> {
    append_capped(Seq::empty(), compositions(total, nc), max_count)
}

/// The contents of a list of vectors.
pub open spec fn rows_of(r: Seq<Vec<usize>>) -> Seq<Seq<usize>> {
    r.map_values(|v: Vec<usize>| v@)
}

proof fn lemma_append_capped_twice(r: Seq<Seq<usize>>, a: Seq<Seq<usize>>, b: Seq<Seq<usize>>, cap: nat)
    ensures
        append_capped(append_capped(r, a, cap), b, cap) == append_capped(r, a + b, cap),
{
    if r.len() <= cap {
        if a.len() <= cap + 1 - r.len() {
            if b.len() <= cap + 1 - r.len() - a.len() {
                assert(r + a + b =~= r + (a + b));
            } else {
                assert(r + a + b.take(cap + 1 - (r + a).len()) =~= r + (a + b).take(
                    cap + 1 - r.len(),
                ));
            }
        } else {
            assert(a.take(cap + 1 - r.len()) =~= (a + b).take(cap + 1 - r.len()));
        }
    }
}

/// A copy of `v`.
fn copy_counts(v: &Vec<usize>) -> (r: Vec<usize>)
    ensures
        r@ == v@,
{
    let mut r: Vec<usize> = Vec::new();
    let mut i: usize = 0;
    while i < v.len()
        invariant
            i <= v@.len(),
            r@ == v@.take(i as int),
        decreases v@.len() - i,
    {
        r.push(v[i]);
        i += 1;
        assert(r@ =~= v@.take(i as int));
    }
    assert(v@.take(v@.len() as int) =~= v@);
    r
}

/// Appends to `result` the histograms that extend `cur[0..pos]` by
/// distributing `rem` over the bins `pos..nc`, in lexicographic order,
/// stopping once `result` holds more than `max_count` histograms.
fn extend_histograms(
    pos: usize,
    rem: usize,
    nc: usize,
    cur: &mut Vec<usize>,
    result: &mut Vec<Vec<usize>>,
    max_count: usize,
)
    requires
        pos < nc,
        old(cur)@.len() == nc,
    ensures
        final(cur)@.len() == nc,
        final(cur)@.take(pos as int) == old(cur)@.take(pos as int),
        rows_of(final(result)@) == append_capped(
            rows_of(old(result)@),
            extensions(old(cur)@.take(pos as int), rem as nat, (nc - pos) as nat, 0),
            max_count as nat,
        ),
    decreases nc - pos,
{
    let ghost pfx = cur@.take(pos as int);
    let ghost r0 = rows_of(result@);
    let ghost n = (nc - pos) as nat;
    if result.len() > max_count {
        return;
    }
    if pos == nc - 1 {
        cur.set(pos, rem);
        let copy = copy_counts(cur);
        result.push(copy);
        assert(cur@ =~= pfx.push(rem));
        assert(rows_of(result@) =~= r0 + seq![pfx.push(rem)]);
        return;
    }
    let mut k: usize = 0;
    let ghost mut done: Seq<Seq<usize>> = Seq::empty();
    loop
        invariant_except_break
            rows_of(result@) == append_capped(r0, done, max_count as nat),
            extensions(pfx, rem as nat, n, 0) == done + extensions(pfx, rem as nat, n, k as nat),
        invariant
            pos + 1 < nc,
            n == nc - pos,
            k <= rem,
            cur@.len() == nc,
            cur@.take(pos as int) == pfx,
            r0.len() <= max_count,
        ensures
            cur@.len() == nc,
            cur@.take(pos as int) == pfx,
            rows_of(result@) == append_capped(r0, extensions(pfx, rem as nat, n, 0), max_count as nat),
        decreases rem - k,
    {
        let ghost block = extensions(pfx.push(k), (rem - k) as nat, (n - 1) as nat, 0);
        let ghost rest = extensions(pfx, rem as nat, n, (k + 1) as nat);
        assert(extensions(pfx, rem as nat, n, k as nat) == block + rest);
        if result.len() > max_count {
            proof {
                lemma_append_capped_twice(r0, done, extensions(pfx, rem as nat, n, k as nat), max_count as nat);
                assert(done + (block + rest) =~= extensions(pfx, rem as nat, n, 0));
            }
            break;
        }
        cur.set(pos, k);
        assert(cur@.take(pos + 1) =~= pfx.push(k));
        extend_histograms(pos + 1, rem - k, nc, cur, result, max_count);
        assert(cur@.take(pos as int) =~= cur@.take(pos + 1).take(pos as int));
        proof {
            lemma_append_capped_twice(r0, done, block, max_count as nat);
            assert(done + (block + rest) =~= (done + block) + rest);
            done = done + block;
        }
        if k == rem {
            assert(rest == Seq::<Seq<usize>>::empty());
            assert(done + rest =~= done);
            break;
        }
        k += 1;
    }
}

/// Every histogram of `total` cells over `nc` colour bins, in lexicographic
/// order, stopping after the first `max_count + 1`.
pub fn gen_all_histograms(total: usize, nc: usize, max_count: usize) -> (all: Vec<Vec<usize>>)
    requires
        nc >= 1,
    ensures
        rows_of(all@) == histograms_spec(total as nat, nc as nat, max_count as nat),
{
    let mut result: Vec<Vec<usize>> = Vec::new();
    let mut cur: Vec<usize> = vec![0; nc];
    assert(rows_of(result@) =~= Seq::<Seq<usize>>::empty());
    assert(cur@.take(0) =~= Seq::<usize>::empty());
    extend_histograms(0, total, nc, &mut cur, &mut result, max_count);
    result
}


proof fn lemma_sum_push(s: Seq<usize>, x: usize)
    ensures
        seq_sum(s.push(x)) == seq_sum(s) + x,
{
    assert(s.push(x).drop_last() =~= s);
}

proof fn lemma_sum_prefix_le(s: Seq<usize>, m: int)
    requires
        0 <= m <= s.len(),
    ensures
        seq_sum(s.take(m)) <= seq_sum(s),
    decreases s.len(),
{
    if m == s.len() {
        assert(s.take(m) =~= s);
    } else {
        lemma_sum_prefix_le(s.drop_last(), m);
        assert(s.drop_last().take(m) =~= s.take(m));
    }
}

proof fn lemma_extensions_shape(prefix: Seq<usize>, rem: nat, n: nat, k: nat, i: int)
    requires
        n >= 1,
        rem <= usize::MAX,
        0 <= i < extensions(prefix, rem, n, k).len(),
    ensures
        ({
            let e = extensions(prefix, rem, n, k)[i];
            &&& e.len() == prefix.len() + n
            &&& e.take(prefix.len() as int) == prefix
            &&& seq_sum(e) == seq_sum(prefix) + rem
            &&& n > 1 ==> e[prefix.len() as int] >= k
        }),
    decreases n, rem + 1 - k,
{
    let e = extensions(prefix, rem, n, k)[i];
    if n <= 1 {
        lemma_sum_push(prefix, rem as usize);
        assert(e.take(prefix.len() as int) =~= prefix);
    } else if k <= rem {
        let p2 = prefix.push(k as usize);
        let block = extensions(p2, (rem - k) as nat, (n - 1) as nat, 0);
        let rest = extensions(prefix, rem, n, k + 1);
        if i < block.len() {
            lemma_extensions_shape(p2, (rem - k) as nat, (n - 1) as nat, 0, i);
            assert(e == block[i]);
            lemma_sum_push(prefix, k as usize);
            assert(e.take(prefix.len() as int) =~= e.take(p2.len() as int).take(
                prefix.len() as int,
            ));
            assert(e[prefix.len() as int] == e.take(p2.len() as int)[prefix.len() as int]);
        } else {
            lemma_extensions_shape(prefix, rem, n, k + 1, i - block.len());
            assert(e == rest[i - block.len()]);
        }
    }
}

proof fn lemma_extensions_complete(prefix: Seq<usize>, rem: nat, n: nat, k: nat, e: Seq<usize>)
    requires
        n >= 1,
        rem <= usize::MAX,
        e.len() == prefix.len() + n,
        e.take(prefix.len() as int) == prefix,
        seq_sum(e) == seq_sum(prefix) + rem,
        n > 1 ==> e[prefix.len() as int] >= k,
        n == 1 ==> k == 0,
    ensures
        extensions(prefix, rem, n, k).contains(e),
    decreases n, rem + 1 - k,
{
    let m = prefix.len() as int;
    if n == 1 {
        assert(e.drop_last() =~= prefix);
        assert(e =~= prefix.push(rem as usize));
        assert(extensions(prefix, rem, n, k)[0] == e);
    } else {
        let x = e[m];
        assert(e.take(m + 1) =~= prefix.push(x));
        lemma_sum_push(prefix, x);
        lemma_sum_prefix_le(e, m + 1);
        assert(x <= rem);
        let p2 = prefix.push(k as usize);
        let block = extensions(p2, (rem - k) as nat, (n - 1) as nat, 0);
        let rest = extensions(prefix, rem, n, k + 1);
        lemma_concat_contains(block, rest, e);
        if x == k {
            lemma_sum_push(prefix, k as usize);
            lemma_extensions_complete(p2, (rem - k) as nat, (n - 1) as nat, 0, e);
        } else {
            lemma_extensions_complete(prefix, rem, n, k + 1, e);
        }
    }
}

/// The histograms of `total` cells over `nc >= 1` bins are exactly the
/// sequences of `nc` counts that add up to `total`.
pub proof fn lemma_compositions_exact(total: usize, nc: nat, e: Seq<usize>)
    requires
        nc >= 1,
    ensures
        compositions(total as nat, nc).contains(e) <==> (e.len() == nc && seq_sum(e) == total),
{
    let all = compositions(total as nat, nc);
    if all.contains(e) {
        let i = choose|i: int| 0 <= i < all.len() && all[i] == e;
        lemma_extensions_shape(Seq::empty(), total as nat, nc, 0, i);
    }
    if e.len() == nc && seq_sum(e) == total {
        assert(e.take(0) =~= Seq::<usize>::empty());
        lemma_extensions_complete(Seq::empty(), total as nat, nc, 0, e);
    }
}


/// The histogram of candidate `cand`: how many cells have each of the
/// `nc` colour indices.
pub fn candidate_histogram(cand: &[usize], nc: usize) -> (hist: Vec<usize>)
    requires
        forall|j: int| 0 <= j < cand@.len() ==> #[trigger] cand@[j] < nc,
    ensures
        hist@.len() == nc,
        forall|i: int| 0 <= i < nc ==> #[trigger] hist@[i] == count_of(cand@, i as usize),
        hist@ == histogram_of(cand@, nc as nat),
{
    let mut hist: Vec<usize> = vec![0; nc];
    let mut j: usize = 0;
    while j < cand.len()
        invariant
            j <= cand@.len(),
            hist@.len() == nc,
            forall|k: int| 0 <= k < cand@.len() ==> #[trigger] cand@[k] < nc,
            forall|i: int| 0 <= i < nc ==> #[trigger] hist@[i] == count_of(cand@.take(j as int), i as usize),
        decreases cand@.len() - j,
    {
        let x = cand[j];
        proof {
            lemma_count_of_le_len(cand@.take(j as int), x);
        }
        let v = hist[x] + 1;
        hist.set(x, v);
        proof {
            assert forall|i: int| 0 <= i < nc implies #[trigger] hist@[i] == count_of(
                cand@.take(j + 1),
                i as usize,
            ) by {
                lemma_count_of_take_succ(cand@, j as int, i as usize);
            }
        }
        j += 1;
    }
    assert(cand@.take(cand@.len() as int) =~= cand@);
    assert forall|i: int| 0 <= i < nc implies #[trigger] hist@[i] == histogram_of(cand@, nc as nat)[i] by {
        lemma_count_of_le_len(cand@, i as usize);
    }
    assert(hist@ =~= histogram_of(cand@, nc as nat));
    hist
}

/// Whether two count vectors are equal.
fn same_counts(a: &Vec<usize>, b: &Vec<usize>) -> (eq: bool)
    ensures
        eq == (a@ == b@),
{
    if a.len() != b.len() {
        return false;
    }
    let mut i: usize = 0;
    while i < a.len()
        invariant
            a@.len() == b@.len(),
            i <= a@.len(),
            forall|k: int| 0 <= k < i ==> a@[k] == b@[k],
        decreases a@.len() - i,
    {
        if a[i] != b[i] {
            return false;
        }
        i += 1;
    }
    assert(a@ =~= b@);
    true
}

/// The position of the first histogram in `all` equal to `hist`, if any.
pub fn find_histogram(all: &Vec<Vec<usize>>, hist: &Vec<usize>) -> (pos: Option<usize>)
    ensures
        match pos {
            Some(i) => i < all@.len() && all@[i as int]@ == hist@ && forall|k: int|
                0 <= k < i ==> (#[trigger] all@[k])@ != hist@,
            None => forall|k: int| 0 <= k < all@.len() ==> (#[trigger] all@[k])@ != hist@,
        },
{
    let mut i: usize = 0;
    while i < all.len()
        invariant
            i <= all@.len(),
            forall|k: int| 0 <= k < i ==> (#[trigger] all@[k])@ != hist@,
        decreases all@.len() - i,
    {
        if same_counts(&all[i], hist) {
            return Some(i);
        }
        i += 1;
    }
    None
}

/// The counts of all `nc` colour indices, as a sequence.
pub open spec fn histogram_of(cand: Seq<usize>, nc: nat) -> Seq<usize> {
    Seq::new(nc, |i: int| count_of(cand, i as usize) as usize)
}

proof fn lemma_sum_bump(a: Seq<usize>, x: int)
    requires
        0 <= x < a.len(),
        a[x] < usize::MAX,
    ensures
        seq_sum(a.update(x, (a[x] + 1) as usize)) == seq_sum(a) + 1,
    decreases a.len(),
{
    let b = a.update(x, (a[x] + 1) as usize);
    if x == a.len() - 1 {
        assert(b.drop_last() =~= a.drop_last());
    } else {
        lemma_sum_bump(a.drop_last(), x);
        assert(b.drop_last() =~= a.drop_last().update(x, (a[x] + 1) as usize));
    }
}

proof fn lemma_sum_zeros(n: nat)
    ensures
        seq_sum(Seq::new(n, |i: int| 0usize)) == 0,
    decreases n,
{
    if n > 0 {
        lemma_sum_zeros((n - 1) as nat);
        assert(Seq::new(n, |i: int| 0usize).drop_last() =~= Seq::new((n - 1) as nat, |i: int| 0usize));
    }
}

/// The counts of a candidate whose entries are all below `nc` add up to its
/// number of cells.
pub proof fn lemma_histogram_sum(cand: Seq<usize>, nc: nat)
    requires
        forall|j: int| 0 <= j < cand.len() ==> #[trigger] cand[j] < nc,
        cand.len() <= usize::MAX,
        nc <= usize::MAX,
    ensures
        seq_sum(histogram_of(cand, nc)) == cand.len(),
    decreases cand.len(),
{
    if cand.len() == 0 {
        lemma_sum_zeros(nc);
        assert(histogram_of(cand, nc) =~= Seq::new(nc, |i: int| 0usize));
    } else {
        let p = cand.drop_last();
        let x = cand.last();
        lemma_histogram_sum(p, nc);
        lemma_count_of_le_len(p, x);
        let hp = histogram_of(p, nc);
        assert forall|i: int| 0 <= i < nc implies #[trigger] histogram_of(cand, nc)[i] == hp.update(
            x as int,
            (hp[x as int] + 1) as usize,
        )[i] by {
            lemma_count_of_le_len(p, i as usize);
            lemma_count_of_le_len(cand, i as usize);
            assert(count_of(cand, i as usize) == count_of(p, i as usize) + (if x == i as usize {
                1nat
            } else {
                0nat
            }));
        }
        assert(histogram_of(cand, nc) =~= hp.update(x as int, (hp[x as int] + 1) as usize));
        lemma_sum_bump(hp, x as int);
    }
}

/// The histogram of any candidate over `nc >= 1` colour indices is among
/// the compositions of its cell count into `nc` bins, so a complete
/// enumeration always holds it.
pub proof fn lemma_candidate_histogram_listed(cand: Seq<usize>, nc: nat)
    requires
        nc >= 1,
        nc <= usize::MAX,
        forall|j: int| 0 <= j < cand.len() ==> #[trigger] cand[j] < nc,
        cand.len() <= usize::MAX,
    ensures
        compositions(cand.len(), nc).contains(histogram_of(cand, nc)),
{
    lemma_histogram_sum(cand, nc);
    lemma_compositions_exact(cand.len() as usize, nc, histogram_of(cand, nc));
}


/// When the capped enumeration lists at most `max_count` histograms, it is
/// the complete list of compositions.
pub proof fn lemma_short_histogram_list_complete(total: nat, nc: nat, max_count: nat)
    requires
        histograms_spec(total, nc, max_count).len() <= max_count,
    ensures
        histograms_spec(total, nc, max_count) == compositions(total, nc),
{
    let all = compositions(total, nc);
    assert(Seq::<Seq<usize>>::empty() + all =~= all);
}

/// Whenever histogram-aware scoring is used (at most `max_count`
/// histograms), the histogram of every candidate is in the list, so its
/// table is found.
pub proof fn lemma_candidate_histogram_found(cand: Seq<usize>, nc: nat, max_count: nat)
    requires
        nc >= 1,
        nc <= usize::MAX,
        forall|j: int| 0 <= j < cand.len() ==> #[trigger] cand[j] < nc,
        cand.len() <= usize::MAX,
        histograms_spec(cand.len(), nc, max_count).len() <= max_count,
    ensures
        histograms_spec(cand.len(), nc, max_count).contains(histogram_of(cand, nc)),
{
    lemma_short_histogram_list_complete(cand.len(), nc, max_count);
    lemma_candidate_histogram_listed(cand, nc);
}

proof fn lemma_extensions_distinct(prefix: Seq<usize>, rem: nat, n: nat, k: nat)
    requires
        n >= 1,
        rem <= usize::MAX,
    ensures
        forall|i: int, j: int|
            0 <= i < j < extensions(prefix, rem, n, k).len() ==> extensions(prefix, rem, n, k)[i]
                != extensions(prefix, rem, n, k)[j],
    decreases n, rem + 1 - k,
{
    if n > 1 && k <= rem {
        let m = prefix.len() as int;
        let p2 = prefix.push(k as usize);
        let a = extensions(p2, (rem - k) as nat, (n - 1) as nat, 0);
        let b = extensions(prefix, rem, n, k + 1);
        lemma_extensions_distinct(p2, (rem - k) as nat, (n - 1) as nat, 0);
        lemma_extensions_distinct(prefix, rem, n, k + 1);
        let all = extensions(prefix, rem, n, k);
        assert(all == a + b);
        assert forall|i: int, j: int| 0 <= i < j < all.len() implies all[i] != all[j] by {
            if i < a.len() && j >= a.len() {
                lemma_extensions_shape(p2, (rem - k) as nat, (n - 1) as nat, 0, i);
                lemma_extensions_shape(prefix, rem, n, k + 1, j - a.len());
                assert(all[i] == a[i]);
                assert(all[j] == b[j - a.len()]);
                assert(a[i][m] == a[i].take(m + 1)[m]);
                assert(a[i][m] == k);
            } else if i < a.len() {
                assert(all[i] == a[i] && all[j] == a[j]);
            } else {
                assert(all[i] == b[i - a.len()] && all[j] == b[j - a.len()]);
            }
        }
    }
}

/// The enumeration lists each histogram once.
pub proof fn lemma_compositions_distinct(total: usize, nc: nat)
    requires
        nc >= 1,
    ensures
        forall|i: int, j: int|
            0 <= i < j < compositions(total as nat, nc).len() ==> compositions(total as nat, nc)[i]
                != compositions(total as nat, nc)[j],
{
    lemma_extensions_distinct(Seq::empty(), total as nat, nc, 0);
}

/// The binomial coefficient "`a` choose `b`".
pub open spec fn binomial(a: nat, b: nat) -> nat
    decreases a,
{
    if b == 0 {
        1
    } else if a == 0 {
        0
    } else {
        binomial((a - 1) as nat, (b - 1) as nat) + binomial((a - 1) as nat, b)
    }
}

proof fn lemma_binomial_zero(a: nat, b: nat)
    requires
        a < b,
    ensures
        binomial(a, b) == 0,
    decreases a,
{
    if a > 0 {
        lemma_binomial_zero((a - 1) as nat, (b - 1) as nat);
        lemma_binomial_zero((a - 1) as nat, b);
    }
}

proof fn lemma_extensions_len(prefix: Seq<usize>, rem: nat, n: nat, k: nat)
    requires
        n >= 1,
        k <= rem + 1,
        n == 1 ==> k == 0,
    ensures
        extensions(prefix, rem, n, k).len() == binomial((rem - k + n - 1) as nat, (n - 1) as nat),
    decreases n, rem + 1 - k,
{
    if n > 1 {
        if k > rem {
            lemma_binomial_zero((n - 2) as nat, (n - 1) as nat);
        } else {
            lemma_extensions_len(prefix.push(k as usize), (rem - k) as nat, (n - 1) as nat, 0);
            lemma_extensions_len(prefix, rem, n, k + 1);
        }
    }
}

/// There are `binomial(total + nc - 1, nc - 1)` histograms of `total`
/// cells over `nc >= 1` colour bins (for a 3 by 3 grid and 3 colours,
/// `binomial(11, 2) = 55`).
pub proof fn lemma_compositions_count(total: nat, nc: nat)
    requires
        nc >= 1,
    ensures
        compositions(total, nc).len() == binomial((total + nc - 1) as nat, (nc - 1) as nat),
{
    lemma_extensions_len(Seq::empty(), total, nc, 0);
}

/// Whether the full pipeline scores the histogram-colour embedding
/// histogram-aware: one score table per possible output histogram, each
/// candidate scored against the table of its own histogram. That is the
/// intended behaviour whenever the embedding produced reference lines and
/// there are at most `MAX_HIST_TABLES` possible histograms; otherwise the
/// pipeline falls back to a histogram difference of zero (the test input
/// standing in for the output).
pub fn histogram_scoring_applies(has_hist_embedding: bool, n_hists: usize) -> (b: bool)
    ensures
        b == (has_hist_embedding && n_hists <= MAX_HIST_TABLES),
{
    has_hist_embedding && n_hists <= MAX_HIST_TABLES
}

} // verus!
