//! The layout of a cake in memory: a row-major grid whose rows are the
//! azimuthal (chi) bins and whose columns are the radial (2theta) bins. The
//! functions here move cells around and never look at their values, so they
//! are generic over the cell type.
use vstd::prelude::*;

verus! {

/// The cell in row `row` and column `col` of a row-major grid with `ncols` columns.
pub open spec fn cell<T>(data: Seq<T>, ncols: int, row: int, col: int) -> T {
    data[row * ncols + col]
}

/// In a grid with `ncols` columns, a cell of an earlier row comes before
/// every cell of row `row`.
pub proof fn lemma_row_major_order(ncols: int, r1: int, c1: int, row: int)
    by (nonlinear_arith)
    requires
        0 <= r1 < row,
        0 <= c1 < ncols,
    ensures
        0 <= r1 * ncols + c1 < row * ncols,
{
}

/// The column `tthindex` of a grid of `chilen` rows and `tthlen` columns: one
/// cell per azimuthal bin, in the order of the bins.
pub fn array_get_tthslice<T: Copy>(data: &Vec<T>, chilen: usize, tthlen: usize, tthindex: usize) -> (slice: Vec<T>)
    requires
        chilen == 0 || (chilen - 1) * tthlen + tthindex < data@.len(),
    ensures
        slice@.len() == chilen,
        forall|c: int| 0 <= c < chilen ==> slice@[c] == #[trigger] cell(data@, tthlen as int, c, tthindex as int),
{
    let mut slice: Vec<T> = Vec::new();
    let mut chii: usize = 0;
    let mut i: usize = tthindex;
    let n = data.len();
    while chii < chilen
        invariant
            n == data@.len(),
            chilen == 0 || (chilen - 1) * tthlen + tthindex < data@.len(),
            chii <= chilen,
            chii < chilen ==> i == chii * tthlen + tthindex,
            slice@.len() == chii,
            forall|c: int| 0 <= c < chii ==> slice@[c] == #[trigger] cell(data@, tthlen as int, c, tthindex as int),
        decreases chilen - chii,
    {
        assert(chii * tthlen <= (chilen - 1) * tthlen) by (nonlinear_arith)
            requires chii <= chilen - 1;
        slice.push(data[i]);
        if chii + 1 < chilen {
            assert((chii + 1) * tthlen <= (chilen - 1) * tthlen) by (nonlinear_arith)
                requires chii + 1 <= chilen - 1;
            assert((chii + 1) * tthlen == chii * tthlen + tthlen) by (nonlinear_arith);
            assert(i + tthlen == (chii + 1) * tthlen + tthindex);
            i = i + tthlen;
        }
        chii = chii + 1;
    }
    slice
}

/// The grid of `f` over two axes: the cell in row `i` and column `j` is
/// `f(tthrange[j], chirange[i])`; the rows follow the azimuthal axis and the
/// columns the radial one.
pub fn grid_from_axes<A: Copy, B: Copy, C, F: Fn(A, B) -> C>(tthrange: &Vec<A>, chirange: &Vec<B>, f: F) -> (grid: Vec<C>)
    requires
        forall|i: int, j: int| 0 <= i < chirange@.len() && 0 <= j < tthrange@.len()
            ==> f.requires((#[trigger] tthrange@[j], #[trigger] chirange@[i])),
    ensures
        grid@.len() == chirange@.len() * tthrange@.len(),
        forall|i: int, j: int| 0 <= i < chirange@.len() && 0 <= j < tthrange@.len()
            ==> f.ensures((tthrange@[j], chirange@[i]), #[trigger] cell(grid@, tthrange@.len() as int, i, j)),
{
    let ncols = tthrange.len();
    let nrows = chirange.len();
    let mut grid: Vec<C> = Vec::new();
    let mut i: usize = 0;
    while i < nrows
        invariant
            ncols == tthrange@.len(),
            nrows == chirange@.len(),
            i <= nrows,
            grid@.len() == i * ncols,
            forall|i: int, j: int| 0 <= i < chirange@.len() && 0 <= j < tthrange@.len()
                ==> f.requires((#[trigger] tthrange@[j], #[trigger] chirange@[i])),
            forall|r: int, c: int| 0 <= r < i && 0 <= c < ncols
                ==> f.ensures((tthrange@[c], chirange@[r]), #[trigger] cell(grid@, ncols as int, r, c)),
        decreases nrows - i,
    {
        let chi = chirange[i];
        let mut j: usize = 0;
        while j < ncols
            invariant
                ncols == tthrange@.len(),
                nrows == chirange@.len(),
                i < nrows,
                j <= ncols,
                chi == chirange@[i as int],
                grid@.len() == i * ncols + j,
                forall|i: int, j: int| 0 <= i < chirange@.len() && 0 <= j < tthrange@.len()
                    ==> f.requires((#[trigger] tthrange@[j], #[trigger] chirange@[i])),
                forall|r: int, c: int| 0 <= r < i && 0 <= c < ncols
                    ==> f.ensures((tthrange@[c], chirange@[r]), #[trigger] cell(grid@, ncols as int, r, c)),
                forall|c: int| 0 <= c < j
                    ==> f.ensures((tthrange@[c], chirange@[i as int]), #[trigger] cell(grid@, ncols as int, i as int, c)),
            decreases ncols - j,
        {
            let tth = tthrange[j];
            let v = f(tth, chi);
            let ghost before = grid@;
            grid.push(v);
            proof {
                assert forall|r: int, c: int| 0 <= r < i && 0 <= c < ncols implies
                    f.ensures((tthrange@[c], chirange@[r]), #[trigger] cell(grid@, ncols as int, r, c)) by {
                    lemma_row_major_order(ncols as int, r, c, i as int);
                    assert(cell(grid@, ncols as int, r, c) == cell(before, ncols as int, r, c));
                }
                assert forall|c: int| 0 <= c < j + 1 implies
                    f.ensures((tthrange@[c], chirange@[i as int]), #[trigger] cell(grid@, ncols as int, i as int, c)) by {
                    if c < j {
                        assert(cell(grid@, ncols as int, i as int, c) == cell(before, ncols as int, i as int, c));
                    }
                }
            }
            j = j + 1;
        }
        assert((i + 1) * ncols == i * ncols + ncols) by (nonlinear_arith);
        i = i + 1;
    }
    grid
}

/// The column of an axes grid at a radial bin: taking it is always possible,
/// and its cell for each azimuthal bin is `f` of that radial position and that
/// azimuthal position. This is how the fit reads the polarisation of one
/// 2theta bin across the azimuthal bins.
pub proof fn lemma_column_of_axes_grid<A, B, C, F: Fn(A, B) -> C>(
    tthrange: Seq<A>,
    chirange: Seq<B>,
    f: F,
    grid: Seq<C>,
    t: int,
    slice: Seq<C>,
)
    requires
        grid.len() == chirange.len() * tthrange.len(),
        forall|i: int, j: int| 0 <= i < chirange.len() && 0 <= j < tthrange.len()
            ==> f.ensures((tthrange[j], chirange[i]), #[trigger] cell(grid, tthrange.len() as int, i, j)),
        0 <= t < tthrange.len(),
        slice.len() == chirange.len(),
        forall|c: int| 0 <= c < chirange.len() ==> slice[c] == #[trigger] cell(grid, tthrange.len() as int, c, t),
    ensures
        chirange.len() == 0 || (chirange.len() - 1) * tthrange.len() + t < grid.len(),
        forall|c: int| 0 <= c < chirange.len() ==> f.ensures((tthrange[t], chirange[c]), #[trigger] slice[c]),
{
    if chirange.len() > 0 {
        lemma_row_major_order(tthrange.len() as int, chirange.len() - 1, t, chirange.len() as int);
    }
    assert forall|c: int| 0 <= c < chirange.len() implies f.ensures((tthrange[t], chirange[c]), #[trigger] slice[c]) by {
        assert(slice[c] == cell(grid, tthrange.len() as int, c, t));
    }
}

/// How many of the first `nrows` rows of column `col` are true.
pub open spec fn column_count(mask: Seq<bool>, ncols: int, nrows: int, col: int) -> nat
    decreases nrows,
{
    if nrows <= 0 {
        0
    } else {
        column_count(mask, ncols, nrows - 1, col) + if cell(mask, ncols, nrows - 1, col) { 1nat } else { 0nat }
    }
}

/// For each column of a grid of `chilen` rows and `tthlen` columns, the number
/// of its cells that are true: the number of azimuthal bins that hold a
/// value at each radial bin.
pub fn column_counts(mask: &Vec<bool>, chilen: usize, tthlen: usize) -> (counts: Vec<usize>)
    requires
        chilen * tthlen <= mask@.len(),
    ensures
        counts@.len() == tthlen,
        forall|t: int| 0 <= t < tthlen ==> counts@[t] == column_count(mask@, tthlen as int, chilen as int, t),
{
    let n = mask.len();
    let mut counts: Vec<usize> = Vec::new();
    let mut t: usize = 0;
    while t < tthlen
        invariant
            n == mask@.len(),
            chilen * tthlen <= n,
            t <= tthlen,
            counts@.len() == t,
            forall|k: int| 0 <= k < t ==> counts@[k] == column_count(mask@, tthlen as int, chilen as int, k),
        decreases tthlen - t,
    {
        let mut count: usize = 0;
        let mut c: usize = 0;
        while c < chilen
            invariant
                n == mask@.len(),
                chilen * tthlen <= n,
                t < tthlen,
                c <= chilen,
                count <= c,
                count == column_count(mask@, tthlen as int, c as int, t as int),
            decreases chilen - c,
        {
            proof {
                lemma_row_major_order(tthlen as int, c as int, t as int, chilen as int);
            }
            let idx = c * tthlen + t;
            if mask[idx] {
                count = count + 1;
            }
            c = c + 1;
        }
        counts.push(count);
        t = t + 1;
    }
    counts
}

/// How many cells of `s` are true.
pub open spec fn count_true(s: Seq<bool>) -> nat
    decreases s.len(),
{
    if s.len() == 0 {
        0
    } else {
        count_true(s.drop_last()) + if s.last() { 1nat } else { 0nat }
    }
}

/// The sum of the counts of the first `k` columns.
pub open spec fn sum_column_counts(mask: Seq<bool>, ncols: int, nrows: int, k: int) -> nat
    decreases k,
{
    if k <= 0 {
        0
    } else {
        sum_column_counts(mask, ncols, nrows, k - 1) + column_count(mask, ncols, nrows, k - 1)
    }
}

/// How many of the first `k` cells of row `row` are true.
pub open spec fn row_count(mask: Seq<bool>, ncols: int, row: int, k: int) -> nat
    decreases k,
{
    if k <= 0 {
        0
    } else {
        row_count(mask, ncols, row, k - 1) + if cell(mask, ncols, row, k - 1) { 1nat } else { 0nat }
    }
}

proof fn lemma_sum_counts_step(mask: Seq<bool>, ncols: int, nrows: int, k: int)
    requires
        nrows >= 0,
    ensures
        sum_column_counts(mask, ncols, nrows + 1, k)
            == sum_column_counts(mask, ncols, nrows, k) + row_count(mask, ncols, nrows, k),
    decreases k,
{
    if k > 0 {
        lemma_sum_counts_step(mask, ncols, nrows, k - 1);
    }
}

proof fn lemma_sum_counts_zero_rows(mask: Seq<bool>, ncols: int, k: int)
    ensures
        sum_column_counts(mask, ncols, 0, k) == 0,
    decreases k,
{
    if k > 0 {
        lemma_sum_counts_zero_rows(mask, ncols, k - 1);
    }
}

proof fn lemma_count_prefix_row(mask: Seq<bool>, ncols: int, row: int, k: int)
    requires
        0 <= row,
        0 <= k <= ncols,
        row * ncols + k <= mask.len(),
    ensures
        count_true(mask.take(row * ncols + k)) == count_true(mask.take(row * ncols)) + row_count(mask, ncols, row, k),
    decreases k,
{
    if k > 0 {
        lemma_count_prefix_row(mask, ncols, row, k - 1);
        let p = mask.take(row * ncols + k);
        assert(p.drop_last() =~= mask.take(row * ncols + k - 1));
        assert(p.last() == cell(mask, ncols, row, k - 1));
    }
}

/// Every cell of the grid lies in one column: the counts of all the columns
/// add up to the number of true cells of the grid.
pub proof fn lemma_column_counts_total(mask: Seq<bool>, ncols: int, nrows: int)
    requires
        0 <= ncols,
        0 <= nrows,
        nrows * ncols <= mask.len(),
    ensures
        sum_column_counts(mask, ncols, nrows, ncols) == count_true(mask.take(nrows * ncols)),
    decreases nrows,
{
    if nrows == 0 {
        lemma_sum_counts_zero_rows(mask, ncols, ncols);
        assert(nrows * ncols == 0) by (nonlinear_arith) requires nrows == 0;
        assert(mask.take(0) =~= Seq::<bool>::empty());
        assert(count_true(Seq::<bool>::empty()) == 0);
    } else {
        assert((nrows - 1) * ncols + ncols == nrows * ncols) by (nonlinear_arith);
        assert((nrows - 1) * ncols <= nrows * ncols) by (nonlinear_arith)
            requires ncols >= 0, nrows >= 1;
        lemma_column_counts_total(mask, ncols, nrows - 1);
        lemma_sum_counts_step(mask, ncols, nrows - 1, ncols);
        lemma_count_prefix_row(mask, ncols, nrows - 1, ncols);
        assert(mask.take((nrows - 1) * ncols + ncols) == mask.take(nrows * ncols));
    }
}

/// The indices at which `mask` is true, in increasing order.
pub open spec fn kept(mask: Seq<bool>) -> Seq<int>
    decreases mask.len(),
{
    if mask.len() == 0 {
        Seq::<int>::empty()
    } else if mask.last() {
        kept(mask.drop_last()).push(mask.len() - 1)
    } else {
        kept(mask.drop_last())
    }
}

/// The cells of `values` whose place in `mask` is true, in their order.
pub fn select_by_mask<T: Copy>(mask: &Vec<bool>, values: &Vec<T>) -> (selected: Vec<T>)
    requires
        mask@.len() == values@.len(),
    ensures
        selected@ == kept(mask@).map_values(|i: int| values@[i]),
{
    let mut selected: Vec<T> = Vec::new();
    let mut i: usize = 0;
    while i < mask.len()
        invariant
            mask@.len() == values@.len(),
            i <= mask@.len(),
            selected@ == kept(mask@.take(i as int)).map_values(|k: int| values@[k]),
        decreases mask@.len() - i,
    {
        proof {
            assert(mask@.take(i + 1).drop_last() =~= mask@.take(i as int));
            assert(mask@.take(i + 1).last() == mask@[i as int]);
        }
        if mask[i] {
            selected.push(values[i]);
            assert(selected@ =~= kept(mask@.take(i + 1)).map_values(|k: int| values@[k]));
        } else {
            assert(selected@ =~= kept(mask@.take(i + 1)).map_values(|k: int| values@[k]));
        }
        i = i + 1;
    }
    assert(mask@.take(mask@.len() as int) =~= mask@);
    selected
}

/// What a selection keeps: the kept indices increase strictly, and an index
/// of the mask is kept exactly when the mask is true there. So two sequences
/// of one length, selected with one mask, stay paired cell by cell.
pub proof fn lemma_kept_is_filter(mask: Seq<bool>)
    ensures
        forall|a: int, b: int| 0 <= a < b < kept(mask).len() ==> kept(mask)[a] < kept(mask)[b],
        forall|k: int| 0 <= k < kept(mask).len() ==> 0 <= #[trigger] kept(mask)[k] < mask.len() && mask[kept(mask)[k]],
        forall|i: int| 0 <= i < mask.len() && #[trigger] mask[i] ==> kept(mask).contains(i),
    decreases mask.len(),
{
    if mask.len() > 0 {
        let m = mask.drop_last();
        lemma_kept_is_filter(m);
        assert forall|i: int| 0 <= i < mask.len() && #[trigger] mask[i] implies kept(mask).contains(i) by {
            if i < mask.len() - 1 {
                assert(m[i] == mask[i]);
                let k = choose|k: int| 0 <= k < kept(m).len() && kept(m)[k] == i;
                assert(kept(mask)[k] == i);
            } else {
                assert(kept(mask)[kept(mask).len() - 1] == i);
            }
        }
        assert forall|k: int| 0 <= k < kept(mask).len() implies 0 <= #[trigger] kept(mask)[k] < mask.len() && mask[kept(mask)[k]] by {
            if k < kept(m).len() {
                assert(kept(mask)[k] == kept(m)[k]);
                assert(m[kept(m)[k]] == mask[kept(m)[k]]);
            }
        }
        assert forall|a: int, b: int| 0 <= a < b < kept(mask).len() implies kept(mask)[a] < kept(mask)[b] by {
            if b < kept(m).len() {
                assert(kept(mask)[a] == kept(m)[a]);
                assert(kept(mask)[b] == kept(m)[b]);
            } else {
                assert(kept(mask)[a] == kept(m)[a]);
            }
        }
    }
}

} // verus!
