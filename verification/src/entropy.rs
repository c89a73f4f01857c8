//! Joint frequency tables built from paired observations of two discrete
//! random variables X and Y.

use vstd::prelude::*;

verus! {

/// How many observations are paired: the observations of X and Y are taken
/// together, position by position, as far as both go.
pub open spec fn paired_len(x: Seq<usize>, y: Seq<usize>) -> int {
    if x.len() <= y.len() { x.len() as int } else { y.len() as int }
}

/// Among the first `k` paired observations, how many are `(X = i, Y = j)`.
pub open spec fn pair_count(x: Seq<usize>, y: Seq<usize>, i: int, j: int, k: int) -> nat
    decreases k,
{
    if k <= 0 {
        0
    } else {
        pair_count(x, y, i, j, k - 1) + if x[k - 1] == i && y[k - 1] == j { 1nat } else { 0nat }
    }
}

/// Among the first `k` paired observations, how many fall inside the table
/// (`X < n_x` and `Y < n_y`).
pub open spec fn in_range_count(x: Seq<usize>, y: Seq<usize>, n_x: int, n_y: int, k: int) -> nat
    decreases k,
{
    if k <= 0 {
        0
    } else {
        in_range_count(x, y, n_x, n_y, k - 1) + if x[k - 1] < n_x && y[k - 1] < n_y { 1nat } else { 0nat }
    }
}

/// The sum of the counts `(X = i, Y = j)` for `j < m`.
pub open spec fn row_total(x: Seq<usize>, y: Seq<usize>, i: int, m: int, k: int) -> nat
    decreases m,
{
    if m <= 0 {
        0
    } else {
        row_total(x, y, i, m - 1, k) + pair_count(x, y, i, m - 1, k)
    }
}

/// The sum of all counts of the `n` by `m` table.
pub open spec fn table_total(x: Seq<usize>, y: Seq<usize>, n: int, m: int, k: int) -> nat
    decreases n,
{
    if n <= 0 {
        0
    } else {
        table_total(x, y, n - 1, m, k) + row_total(x, y, n - 1, m, k)
    }
}

proof fn lemma_pair_count_bound(x: Seq<usize>, y: Seq<usize>, i: int, j: int, k: int)
    requires
        k >= 0,
    ensures
        pair_count(x, y, i, j, k) <= k,
    decreases k,
{
    if k > 0 {
        lemma_pair_count_bound(x, y, i, j, k - 1);
    }
}

/// The frequency table of paired observations: `counts[i][j]` is the number
/// of positions `k` where `x[k] == i` and `y[k] == j`. Observations outside
/// the `n_x` by `n_y` table are not counted; the unpaired tail of the longer
/// slice is ignored.
pub fn observation_counts(x: &[usize], y: &[usize], n_x: usize, n_y: usize) -> (counts: Vec<Vec<usize>>)
    ensures
        counts.len() == n_x,
        forall|i: int| 0 <= i < n_x ==> (#[trigger] counts@[i]).len() == n_y,
        forall|i: int, j: int|
            0 <= i < n_x && 0 <= j < n_y ==> #[trigger] counts@[i]@[j] == pair_count(
                x@,
                y@,
                i,
                j,
                paired_len(x@, y@),
            ),
{
    let mut counts: Vec<Vec<usize>> = Vec::new();
    let mut i: usize = 0;
    while i < n_x
        invariant
            i <= n_x,
            counts.len() == i,
            forall|a: int| 0 <= a < i ==> (#[trigger] counts@[a]).len() == n_y,
            forall|a: int, b: int| 0 <= a < i && 0 <= b < n_y ==> #[trigger] counts@[a]@[b] == 0,
        decreases n_x - i,
    {
        let mut row: Vec<usize> = Vec::new();
        let mut j: usize = 0;
        while j < n_y
            invariant
                j <= n_y,
                row.len() == j,
                forall|b: int| 0 <= b < j ==> #[trigger] row@[b] == 0,
            decreases n_y - j,
        {
            row.push(0);
            j = j + 1;
        }
        counts.push(row);
        i = i + 1;
    }
    let len: usize = if x.len() <= y.len() { x.len() } else { y.len() };
    let mut k: usize = 0;
    while k < len
        invariant
            k <= len,
            len == paired_len(x@, y@),
            len <= x.len(),
            len <= y.len(),
            counts.len() == n_x,
            forall|a: int| 0 <= a < n_x ==> (#[trigger] counts@[a]).len() == n_y,
            forall|a: int, b: int|
                0 <= a < n_x && 0 <= b < n_y ==> #[trigger] counts@[a]@[b] == pair_count(x@, y@, a, b, k as int),
        decreases len - k,
    {
        let xi = x[k];
        let yi = y[k];
        if xi < n_x && yi < n_y {
            proof {
                lemma_pair_count_bound(x@, y@, xi as int, yi as int, k as int);
            }
            let current = counts[xi][yi];
            counts[xi].set(yi, current + 1);
        }
        k = k + 1;
    }
    counts
}

proof fn lemma_row_total_step(x: Seq<usize>, y: Seq<usize>, i: int, m: int, k: int)
    requires
        0 <= k,
        m >= 0,
    ensures
        row_total(x, y, i, m, k + 1) == row_total(x, y, i, m, k) + if x[k] == i && y[k] < m {
            1nat
        } else {
            0nat
        },
    decreases m,
{
    if m > 0 {
        lemma_row_total_step(x, y, i, m - 1, k);
    }
}

proof fn lemma_table_total_step(x: Seq<usize>, y: Seq<usize>, n: int, m: int, k: int)
    requires
        0 <= k,
        n >= 0,
        m >= 0,
    ensures
        table_total(x, y, n, m, k + 1) == table_total(x, y, n, m, k) + if x[k] < n && y[k] < m {
            1nat
        } else {
            0nat
        },
    decreases n,
{
    if n > 0 {
        lemma_table_total_step(x, y, n - 1, m, k);
        lemma_row_total_step(x, y, n - 1, m, k);
    }
}

proof fn lemma_table_total_zero(x: Seq<usize>, y: Seq<usize>, n: int, m: int)
    ensures
        table_total(x, y, n, m, 0) == 0,
    decreases n,
{
    if n > 0 {
        lemma_table_total_zero(x, y, n - 1, m);
        lemma_row_total_zero(x, y, n - 1, m);
    }
}

proof fn lemma_row_total_zero(x: Seq<usize>, y: Seq<usize>, i: int, m: int)
    ensures
        row_total(x, y, i, m, 0) == 0,
    decreases m,
{
    if m > 0 {
        lemma_row_total_zero(x, y, i, m - 1);
    }
}

/// The frequency table accounts for every paired observation that falls
/// inside it, and for nothing else: its counts sum to the number of such
/// observations.
pub proof fn lemma_table_total(x: Seq<usize>, y: Seq<usize>, n_x: int, n_y: int, k: int)
    requires
        n_x >= 0,
        n_y >= 0,
        0 <= k <= paired_len(x, y),
    ensures
        table_total(x, y, n_x, n_y, k) == in_range_count(x, y, n_x, n_y, k),
    decreases k,
{
    if k == 0 {
        lemma_table_total_zero(x, y, n_x, n_y);
    } else {
        lemma_table_total(x, y, n_x, n_y, k - 1);
        lemma_table_total_step(x, y, n_x, n_y, k - 1);
    }
}


/// Every position that both slices reach is paired: `paired_len` is the
/// length of the shorter slice.
pub proof fn lemma_paired_len(x: Seq<usize>, y: Seq<usize>)
    ensures
        paired_len(x, y) <= x.len(),
        paired_len(x, y) <= y.len(),
        paired_len(x, y) == x.len() || paired_len(x, y) == y.len(),
        forall|k: int| #![trigger x[k], y[k]] 0 <= k < x.len() && k < y.len() ==> k < paired_len(x, y),
{
}

} // verus!
