//! Masking and masked error metrics.
//!
//! A rating of exactly zero marks an unobserved cell.  The mask derived from
//! the rating matrix confines every loss and gradient computation to the
//! observed cells, which is what makes plain gradient descent suitable for
//! sparse recommendation data.  Three metric variants are provided: the
//! masked mean-squared error with an explicit denominator convention, a
//! normalization-relative error, and the mean of squared errors over a
//! sparse entry list.

use vstd::prelude::*;
use crate::fixed::{SCALE, VAL_MAX, DIM_MAX, t_div, div_trunc, lemma_mul_bounds};
use crate::matrix::{
    Matrix, mat_view, row_view, is_rect, bounded, spec_mat_sum, spec_row_sum, spec_sq_sum,
    spec_row_sq_sum, lemma_take_push, lemma_row_view_push, lemma_mat_view_push,
    lemma_mat_sum_bound, lemma_sq_sum_bound, mat_sum, sq_sum,
};
use crate::config::{CountMode, MfError};

verus! {

/// The observed-entry mask of a rating matrix: one where the rating is
/// non-zero, zero where it is zero.
pub open spec fn spec_mask(y: Seq<Seq<int>>) -> Seq<Seq<int>> {
    Seq::new(
        y.len(),
        |i: int|
            Seq::new(
                y[i].len(),
                |j: int|
                    if y[i][j] == 0 {
                        0int
                    } else {
                        1int
                    },
            ),
    )
}

/// Every entry is zero or one.
pub open spec fn is_mask(m: Seq<Seq<int>>) -> bool {
    forall|i: int, j: int|
        0 <= i < m.len() && 0 <= j < m[i].len() ==> #[trigger] m[i][j] == 0 || m[i][j] == 1
}

/// The masked elementwise difference `D = (Y - Y_hat) * M`.
pub open spec fn spec_masked_diff(
    y: Seq<Seq<int>>,
    y_hat: Seq<Seq<int>>,
    mask: Seq<Seq<int>>,
) -> Seq<Seq<int>> {
    Seq::new(
        y.len(),
        |i: int| Seq::new(y[i].len(), |j: int| (y[i][j] - y_hat[i][j]) * mask[i][j]),
    )
}

/// The denominator of the masked mean-squared error under the chosen
/// convention: the number of observed entries, or the total cell count.
pub open spec fn spec_mse_count(mode: CountMode, mask: Seq<Seq<int>>, rows: int, cols: int) -> int {
    match mode {
        CountMode::Observed => spec_mat_sum(mask),
        CountMode::AllCells => rows * cols,
    }
}

/// A row of non-negative entries has a non-negative sum.
pub proof fn lemma_row_sum_nonneg(r: Seq<int>)
    requires
        forall|j: int| 0 <= j < r.len() ==> #[trigger] r[j] >= 0,
    ensures
        spec_row_sum(r) >= 0,
    decreases r.len(),
{
    if r.len() > 0 {
        lemma_row_sum_nonneg(r.drop_last());
    }
}

/// A matrix of non-negative entries has a non-negative sum.
pub proof fn lemma_mat_sum_nonneg(m: Seq<Seq<int>>)
    requires
        forall|i: int, j: int| 0 <= i < m.len() && 0 <= j < m[i].len() ==> #[trigger] m[i][j] >= 0,
    ensures
        spec_mat_sum(m) >= 0,
    decreases m.len(),
{
    if m.len() > 0 {
        let prefix = m.drop_last();
        assert(forall|i: int, j: int|
            0 <= i < prefix.len() && 0 <= j < prefix[i].len() ==> #[trigger] prefix[i][j] >= 0) by {
            assert(forall|i: int| 0 <= i < prefix.len() ==> prefix[i] == m[i]);
        }
        lemma_mat_sum_nonneg(prefix);
        lemma_row_sum_nonneg(m.last());
    }
}

/// A row of all-zero entries has a zero square sum.
proof fn lemma_row_sq_sum_zero(r: Seq<int>)
    requires
        forall|j: int| 0 <= j < r.len() ==> #[trigger] r[j] == 0,
    ensures
        spec_row_sq_sum(r) == 0,
    decreases r.len(),
{
    if r.len() > 0 {
        lemma_row_sq_sum_zero(r.drop_last());
    }
}

/// A matrix of all-zero entries has a zero square sum.
proof fn lemma_sq_sum_zero(m: Seq<Seq<int>>)
    requires
        forall|i: int, j: int| 0 <= i < m.len() && 0 <= j < m[i].len() ==> #[trigger] m[i][j] == 0,
    ensures
        spec_sq_sum(m) == 0,
    decreases m.len(),
{
    if m.len() > 0 {
        let prefix = m.drop_last();
        assert(forall|i: int, j: int|
            0 <= i < prefix.len() && 0 <= j < prefix[i].len() ==> #[trigger] prefix[i][j] == 0) by {
            assert(forall|i: int| 0 <= i < prefix.len() ==> prefix[i] == m[i]);
        }
        lemma_sq_sum_zero(prefix);
        lemma_row_sq_sum_zero(m.last());
    }
}

/// When the prediction agrees with the rating on every observed cell, the
/// masked squared-error sum is exactly zero, and with it the mean-squared
/// error under either denominator convention.
pub proof fn lemma_mse_zero_when_predictions_match(
    y: Seq<Seq<int>>,
    y_hat: Seq<Seq<int>>,
    mask: Seq<Seq<int>>,
)
    requires
        y_hat.len() == y.len(),
        mask.len() == y.len(),
        forall|i: int|
            0 <= i < y.len() ==> (#[trigger] y_hat[i]).len() == y[i].len() && mask[i].len()
                == y[i].len(),
        is_mask(mask),
        forall|i: int, j: int|
            0 <= i < y.len() && 0 <= j < y[i].len() && mask[i][j] == 1 ==> #[trigger] y_hat[i][j]
                == y[i][j],
    ensures
        spec_sq_sum(spec_masked_diff(y, y_hat, mask)) == 0,
{
    let d = spec_masked_diff(y, y_hat, mask);
    assert forall|i: int, j: int| 0 <= i < d.len() && 0 <= j < d[i].len() implies #[trigger] d[i][j]
        == 0 by {
        if mask[i][j] == 1 {
            assert(y_hat[i][j] == y[i][j]);
        } else {
            assert(mask[i][j] == 0);
            assert((y[i][j] - y_hat[i][j]) * 0 == 0) by (nonlinear_arith);
        }
    }
    lemma_sq_sum_zero(d);
}

/// A row whose entries are a zero-one mask row scaled by `d` has square sum
/// equal to the mask row's sum times `d * d`.
proof fn lemma_row_sq_sum_scaled(dr: Seq<int>, mr: Seq<int>, d: int)
    requires
        dr.len() == mr.len(),
        forall|j: int| 0 <= j < mr.len() ==> #[trigger] mr[j] == 0 || mr[j] == 1,
        forall|j: int| 0 <= j < dr.len() ==> #[trigger] dr[j] == mr[j] * d,
    ensures
        spec_row_sq_sum(dr) == spec_row_sum(mr) * (d * d),
    decreases dr.len(),
{
    if dr.len() == 0 {
        assert(0 * (d * d) == 0) by (nonlinear_arith);
    } else {
        lemma_row_sq_sum_scaled(dr.drop_last(), mr.drop_last(), d);
        let m = mr.last();
        assert(dr.last() == m * d);
        assert((m * d) * (m * d) == m * (d * d) || !(m == 0 || m == 1)) by (nonlinear_arith);
        assert(spec_row_sum(mr.drop_last()) * (d * d) + m * (d * d) == (spec_row_sum(mr.drop_last())
            + m) * (d * d)) by (nonlinear_arith);
    }
}

/// A matrix whose entries are a zero-one mask scaled by `d` has square sum
/// equal to the mask's sum times `d * d`.
proof fn lemma_sq_sum_scaled(dm: Seq<Seq<int>>, mm: Seq<Seq<int>>, d: int)
    requires
        dm.len() == mm.len(),
        forall|i: int| 0 <= i < dm.len() ==> (#[trigger] dm[i]).len() == mm[i].len(),
        is_mask(mm),
        forall|i: int, j: int|
            0 <= i < dm.len() && 0 <= j < dm[i].len() ==> #[trigger] dm[i][j] == mm[i][j] * d,
    ensures
        spec_sq_sum(dm) == spec_mat_sum(mm) * (d * d),
    decreases dm.len(),
{
    if dm.len() == 0 {
        assert(0 * (d * d) == 0) by (nonlinear_arith);
    } else {
        let dp = dm.drop_last();
        let mp = mm.drop_last();
        assert(forall|i: int| 0 <= i < dp.len() ==> dp[i] == dm[i] && mp[i] == mm[i]);
        assert(forall|i: int, j: int|
            0 <= i < mp.len() && 0 <= j < mp[i].len() ==> #[trigger] mp[i][j] == 0 || mp[i][j]
                == 1);
        assert(forall|i: int, j: int|
            0 <= i < dp.len() && 0 <= j < dp[i].len() ==> #[trigger] dp[i][j] == mp[i][j] * d);
        lemma_sq_sum_scaled(dp, mp, d);
        assert(forall|j: int| 0 <= j < mm.last().len() ==> #[trigger] mm.last()[j] == 0
            || mm.last()[j] == 1);
        assert(forall|j: int| 0 <= j < dm.last().len() ==> #[trigger] dm.last()[j] == mm.last()[j]
            * d);
        lemma_row_sq_sum_scaled(dm.last(), mm.last(), d);
        assert(spec_mat_sum(mp) * (d * d) + spec_row_sum(mm.last()) * (d * d) == (spec_mat_sum(mp)
            + spec_row_sum(mm.last())) * (d * d)) by (nonlinear_arith);
    }
}

/// When every observed cell's prediction is off by exactly `d`, the masked
/// squared-error sum is the observed count times `d * d`: with the
/// observed-entries denominator the mean-squared error is exactly the square
/// of the offset.
pub proof fn lemma_mse_constant_offset(
    y: Seq<Seq<int>>,
    y_hat: Seq<Seq<int>>,
    mask: Seq<Seq<int>>,
    d: int,
)
    requires
        y_hat.len() == y.len(),
        mask.len() == y.len(),
        forall|i: int|
            0 <= i < y.len() ==> (#[trigger] y_hat[i]).len() == y[i].len() && mask[i].len()
                == y[i].len(),
        is_mask(mask),
        forall|i: int, j: int|
            0 <= i < y.len() && 0 <= j < y[i].len() && mask[i][j] == 1 ==> y[i][j] - #[trigger] y_hat[i][j]
                == d,
    ensures
        spec_sq_sum(spec_masked_diff(y, y_hat, mask)) == spec_mat_sum(mask) * (d * d),
{
    let dm = spec_masked_diff(y, y_hat, mask);
    assert forall|i: int, j: int|
        0 <= i < dm.len() && 0 <= j < dm[i].len() implies #[trigger] dm[i][j] == mask[i][j] * d by {
        if mask[i][j] == 1 {
            assert(y[i][j] - y_hat[i][j] == d);
        } else {
            assert(mask[i][j] == 0);
            assert((y[i][j] - y_hat[i][j]) * 0 == 0 && 0 * d == 0) by (nonlinear_arith);
        }
    }
    lemma_sq_sum_scaled(dm, mask, d);
}

/// Masked cells never contribute to the error: two predictions that agree on
/// every observed cell produce the same masked difference, and with it the
/// same squared-error sum and the same reported error.
pub proof fn lemma_masked_cells_ignored(
    y: Seq<Seq<int>>,
    y_hat_a: Seq<Seq<int>>,
    y_hat_b: Seq<Seq<int>>,
    mask: Seq<Seq<int>>,
)
    requires
        y_hat_a.len() == y.len(),
        y_hat_b.len() == y.len(),
        mask.len() == y.len(),
        forall|i: int|
            0 <= i < y.len() ==> (#[trigger] y_hat_a[i]).len() == y[i].len() && y_hat_b[i].len()
                == y[i].len() && mask[i].len() == y[i].len(),
        is_mask(mask),
        forall|i: int, j: int|
            0 <= i < y.len() && 0 <= j < y[i].len() && mask[i][j] == 1 ==> #[trigger] y_hat_a[i][j]
                == y_hat_b[i][j],
    ensures
        spec_masked_diff(y, y_hat_a, mask) == spec_masked_diff(y, y_hat_b, mask),
        spec_sq_sum(spec_masked_diff(y, y_hat_a, mask)) == spec_sq_sum(
            spec_masked_diff(y, y_hat_b, mask),
        ),
{
    let da = spec_masked_diff(y, y_hat_a, mask);
    let db = spec_masked_diff(y, y_hat_b, mask);
    assert forall|i: int| 0 <= i < y.len() implies #[trigger] da[i] =~= db[i] by {
        assert(0 <= i < y.len());
        assert((y_hat_a[i]).len() == y[i].len());
        assert((y_hat_b[i]).len() == y[i].len());
        assert((mask[i]).len() == y[i].len());
        assert forall|j: int| 0 <= j < y[i].len() implies #[trigger] da[i][j] == db[i][j] by {
            if mask[i][j] == 1 {
                assert(y_hat_a[i][j] == y_hat_b[i][j]);
            } else {
                assert(mask[i][j] == 0);
                assert((y[i][j] - y_hat_a[i][j]) * 0 == 0 && (y[i][j] - y_hat_b[i][j]) * 0 == 0)
                    by (nonlinear_arith);
            }
        }
    }
    assert(da =~~= db);
}

/// The observed-entry mask of a rating matrix.
pub fn mask_of(y: &Matrix, rows: usize, cols: usize) -> (r: Matrix)
    requires
        is_rect(mat_view(*y), rows as int, cols as int),
        rows <= DIM_MAX,
        cols <= DIM_MAX,
    ensures
        mat_view(r) == spec_mask(mat_view(*y)),
        is_rect(mat_view(r), rows as int, cols as int),
        is_mask(mat_view(r)),
        bounded(mat_view(r), 1),
{
    let ghost yv = mat_view(*y);
    let ghost target = spec_mask(yv);
    let mut out: Matrix = Vec::new();
    proof {
        assert(mat_view(out) =~= target.take(0));
    }
    for i in 0..rows
        invariant
            is_rect(yv, rows as int, cols as int),
            yv == mat_view(*y),
            target == spec_mask(yv),
            rows <= DIM_MAX,
            cols <= DIM_MAX,
            out@.len() == i,
            mat_view(out) == target.take(i as int),
    {
        let mut row: Vec<i64> = Vec::new();
        let ghost target_row = target[i as int];
        proof {
            assert(row_view(row) =~= target_row.take(0));
        }
        for j in 0..cols
            invariant
                is_rect(yv, rows as int, cols as int),
                yv == mat_view(*y),
                target == spec_mask(yv),
                target_row == target[i as int],
                0 <= i < rows,
                rows <= DIM_MAX,
                cols <= DIM_MAX,
                row@.len() == j,
                row_view(row) == target_row.take(j as int),
        {
            proof {
                assert(yv[i as int][j as int] == y@[i as int]@[j as int] as int);
            }
            let e: i64 = if y[i][j] == 0 {
                0
            } else {
                1
            };
            let ghost pre = row;
            row.push(e);
            proof {
                lemma_row_view_push(pre, row, e);
                lemma_take_push(target_row, j as int);
            }
        }
        let ghost pre_out = out;
        proof {
            assert(target_row.take(cols as int) =~= target_row);
        }
        out.push(row);
        proof {
            lemma_mat_view_push(pre_out, out, row);
            lemma_take_push(target, i as int);
        }
    }
    proof {
        assert(target.take(rows as int) =~= target);
        assert(is_rect(target, rows as int, cols as int));
        assert(is_mask(target));
        assert(bounded(target, 1));
    }
    out
}

/// The masked elementwise difference `D = (Y - Y_hat) * M`.
pub fn masked_diff(y: &Matrix, y_hat: &Matrix, mask: &Matrix, rows: usize, cols: usize) -> (r:
    Matrix)
    requires
        is_rect(mat_view(*y), rows as int, cols as int),
        is_rect(mat_view(*y_hat), rows as int, cols as int),
        is_rect(mat_view(*mask), rows as int, cols as int),
        rows <= DIM_MAX,
        cols <= DIM_MAX,
        bounded(mat_view(*y), VAL_MAX as int),
        bounded(mat_view(*y_hat), VAL_MAX as int),
        is_mask(mat_view(*mask)),
    ensures
        mat_view(r) == spec_masked_diff(mat_view(*y), mat_view(*y_hat), mat_view(*mask)),
        is_rect(mat_view(r), rows as int, cols as int),
        bounded(mat_view(r), 2 * (VAL_MAX as int)),
{
    let ghost yv = mat_view(*y);
    let ghost hv = mat_view(*y_hat);
    let ghost mv = mat_view(*mask);
    let ghost target = spec_masked_diff(yv, hv, mv);
    let mut out: Matrix = Vec::new();
    proof {
        assert(mat_view(out) =~= target.take(0));
    }
    for i in 0..rows
        invariant
            is_rect(yv, rows as int, cols as int),
            is_rect(hv, rows as int, cols as int),
            is_rect(mv, rows as int, cols as int),
            yv == mat_view(*y),
            hv == mat_view(*y_hat),
            mv == mat_view(*mask),
            target == spec_masked_diff(yv, hv, mv),
            rows <= DIM_MAX,
            cols <= DIM_MAX,
            bounded(yv, VAL_MAX as int),
            bounded(hv, VAL_MAX as int),
            is_mask(mv),
            out@.len() == i,
            mat_view(out) == target.take(i as int),
            forall|ii: int, jj: int|
                0 <= ii < i && 0 <= jj < cols ==> -2 * (VAL_MAX as int) <= #[trigger] target[ii][jj]
                    <= 2 * (VAL_MAX as int),
    {
        let mut row: Vec<i64> = Vec::new();
        let ghost target_row = target[i as int];
        proof {
            assert(row_view(row) =~= target_row.take(0));
        }
        for j in 0..cols
            invariant
                is_rect(yv, rows as int, cols as int),
                is_rect(hv, rows as int, cols as int),
                is_rect(mv, rows as int, cols as int),
                yv == mat_view(*y),
                hv == mat_view(*y_hat),
                mv == mat_view(*mask),
                target == spec_masked_diff(yv, hv, mv),
                target_row == target[i as int],
                0 <= i < rows,
                rows <= DIM_MAX,
                cols <= DIM_MAX,
                bounded(yv, VAL_MAX as int),
                bounded(hv, VAL_MAX as int),
                is_mask(mv),
                row@.len() == j,
                row_view(row) == target_row.take(j as int),
                forall|jj: int|
                    0 <= jj < j ==> -2 * (VAL_MAX as int) <= #[trigger] target_row[jj] <= 2 * (
                    VAL_MAX as int),
        {
            proof {
                assert(yv[i as int][j as int] == y@[i as int]@[j as int] as int);
                assert(hv[i as int][j as int] == y_hat@[i as int]@[j as int] as int);
                assert(mv[i as int][j as int] == mask@[i as int]@[j as int] as int);
                assert(-(VAL_MAX as int) <= yv[i as int][j as int] <= VAL_MAX as int);
                assert(-(VAL_MAX as int) <= hv[i as int][j as int] <= VAL_MAX as int);
                assert(mv[i as int][j as int] == 0 || mv[i as int][j as int] == 1);
            }
            let diff: i64 = y[i][j] - y_hat[i][j];
            let e: i64 = diff * mask[i][j];
            let ghost pre = row;
            row.push(e);
            proof {
                assert(target_row[j as int] == (yv[i as int][j as int] - hv[i as int][j as int])
                    * mv[i as int][j as int]);
                lemma_row_view_push(pre, row, e);
                lemma_take_push(target_row, j as int);
            }
        }
        let ghost pre_out = out;
        proof {
            assert(target_row.take(cols as int) =~= target_row);
        }
        out.push(row);
        proof {
            lemma_mat_view_push(pre_out, out, row);
            lemma_take_push(target, i as int);
        }
    }
    proof {
        assert(target.take(rows as int) =~= target);
        assert(is_rect(target, rows as int, cols as int));
        assert(bounded(target, 2 * (VAL_MAX as int)));
    }
    out
}

/// The masked mean-squared error `MSE(Y, Y_hat, M)` under the chosen
/// denominator convention, together with the masked difference matrix `D`.
///
/// The returned scalar is the exact rational `sum(D * D) / (count * SCALE^2)`
/// expressed in fixed point, truncated toward zero.  A dataset whose
/// denominator is zero is rejected as degenerate.
pub fn mse(y: &Matrix, y_hat: &Matrix, mask: &Matrix, rows: usize, cols: usize, mode: CountMode)
    -> (r: Result<(Matrix, i128), MfError>)
    requires
        is_rect(mat_view(*y), rows as int, cols as int),
        is_rect(mat_view(*y_hat), rows as int, cols as int),
        is_rect(mat_view(*mask), rows as int, cols as int),
        rows <= DIM_MAX,
        cols <= DIM_MAX,
        bounded(mat_view(*y), VAL_MAX as int),
        bounded(mat_view(*y_hat), VAL_MAX as int),
        is_mask(mat_view(*mask)),
    ensures
        ({
            let dv = spec_masked_diff(mat_view(*y), mat_view(*y_hat), mat_view(*mask));
            let cnt = spec_mse_count(mode, mat_view(*mask), rows as int, cols as int);
            match r {
                Ok(p) => mat_view(p.0) == dv && p.1 == t_div(
                    spec_sq_sum(dv),
                    cnt * (SCALE as int),
                ) && cnt > 0 && is_rect(mat_view(p.0), rows as int, cols as int),
                Err(e) => e == MfError::EmptyDataset && cnt == 0,
            }
        }),
{
    let ghost mv = mat_view(*mask);
    let count: i128 = match mode {
        CountMode::Observed => {
            proof {
                lemma_mat_sum_nonneg(mv);
            }
            mat_sum(mask, rows, cols)
        },
        CountMode::AllCells => {
            proof {
                assert((rows as int) * (cols as int) <= 100_000_000) by (nonlinear_arith)
                    requires
                        0 <= rows <= 10_000,
                        0 <= cols <= 10_000,
                ;
            }
            (rows as i128) * (cols as i128)
        },
    };
    proof {
        assert(count == spec_mse_count(mode, mv, rows as int, cols as int));
        assert(count >= 0) by {
            match mode {
                CountMode::Observed => {},
                CountMode::AllCells => {
                    assert((rows as int) * (cols as int) >= 0) by (nonlinear_arith);
                },
            }
        }
    }
    if count == 0 {
        return Err(MfError::EmptyDataset);
    }
    let d = masked_diff(y, y_hat, mask, rows, cols);
    let q = sq_sum(&d, rows, cols);
    proof {
        lemma_mat_sum_bound(mv, cols as int, 1);
        assert((rows as int) * ((cols as int) * 1) <= 100_000_000) by (nonlinear_arith)
            requires
                0 <= rows <= 10_000,
                0 <= cols <= 10_000,
        ;
        assert(count <= 100_000_000) by {
            match mode {
                CountMode::Observed => {},
                CountMode::AllCells => {},
            }
        }
        assert(count * (SCALE as int) <= 100_000_000_000_000) by (nonlinear_arith)
            requires
                1 <= count <= 100_000_000,
                SCALE == 1_000_000,
        ;
        assert(count * (SCALE as int) >= 1) by (nonlinear_arith)
            requires
                count >= 1,
                SCALE == 1_000_000,
        ;
    }
    let err = div_trunc(q, count * (SCALE as i128));
    Ok((d, err))
}

/// The model of an observed-entry list: `(row, column, rating)` triples.
pub open spec fn triples_view(ts: Seq<(usize, usize, i64)>) -> Seq<(int, int, int)> {
    Seq::new(ts.len(), |k: int| (ts[k].0 as int, ts[k].1 as int, ts[k].2 as int))
}

/// Squared-error sum over an entry list against a prediction matrix.
pub open spec fn spec_entry_sq_sum(ts: Seq<(int, int, int)>, y_hat: Seq<Seq<int>>) -> int
    decreases ts.len(),
{
    if ts.len() == 0 {
        0
    } else {
        let t = ts.last();
        spec_entry_sq_sum(ts.drop_last(), y_hat) + (t.2 - y_hat[t.0][t.1]) * (t.2 - y_hat[t.0][t.1])
    }
}

/// Extending an entry list adds one squared-error term.
pub proof fn lemma_entry_sq_sum_push(ts: Seq<(int, int, int)>, t: (int, int, int), y_hat: Seq<Seq<int>>)
    ensures
        spec_entry_sq_sum(ts.push(t), y_hat) == spec_entry_sq_sum(ts, y_hat) + (t.2
            - y_hat[t.0][t.1]) * (t.2 - y_hat[t.0][t.1]),
{
    assert(ts.push(t).drop_last() =~= ts);
}

/// Every triple of the list indexes into the given shape and carries a
/// bounded rating.
pub open spec fn triples_wf(ts: Seq<(int, int, int)>, rows: int, cols: int) -> bool {
    forall|k: int|
        0 <= k < ts.len() ==> 0 <= (#[trigger] ts[k]).0 < rows && 0 <= ts[k].1 < cols
            && -VAL_MAX <= ts[k].2 <= VAL_MAX
}

/// Mean of squared errors over a sparse entry list: the fit metric of the
/// stochastic trainer, which never materializes a mask.
///
/// The returned scalar is the exact rational
/// `sum((rating - Y_hat[row, col])^2) / (len * SCALE^2)` in fixed point,
/// truncated toward zero.  An empty list is rejected as degenerate.
pub fn rmse(ratings: &Vec<(usize, usize, i64)>, y_hat: &Matrix, rows: usize, cols: usize) -> (r:
    Result<i128, MfError>)
    requires
        is_rect(mat_view(*y_hat), rows as int, cols as int),
        rows <= DIM_MAX,
        cols <= DIM_MAX,
        bounded(mat_view(*y_hat), VAL_MAX as int),
        triples_wf(triples_view(ratings@), rows as int, cols as int),
        ratings@.len() <= 100_000_000,
    ensures
        ({
            let q = spec_entry_sq_sum(triples_view(ratings@), mat_view(*y_hat));
            match r {
                Ok(e) => e == t_div(q, ratings@.len() * (SCALE as int)) && ratings@.len() > 0,
                Err(e) => e == MfError::EmptyDataset && ratings@.len() == 0,
            }
        }),
{
    if ratings.len() == 0 {
        return Err(MfError::EmptyDataset);
    }
    let acc = entry_sq_sum(ratings, y_hat, rows, cols);
    let n = ratings.len();
    proof {
        assert((n as int) * (SCALE as int) >= 1 && (n as int) * (SCALE as int)
            <= 100_000_000_000_000) by (nonlinear_arith)
            requires
                1 <= n <= 100_000_000,
                SCALE == 1_000_000,
        ;
    }
    let err = div_trunc(acc, (n as i128) * (SCALE as i128));
    Ok(err)
}

/// The squared-error sum over a sparse entry list, exact in `i128`.
pub fn entry_sq_sum(ratings: &Vec<(usize, usize, i64)>, y_hat: &Matrix, rows: usize, cols: usize)
    -> (q: i128)
    requires
        is_rect(mat_view(*y_hat), rows as int, cols as int),
        rows <= DIM_MAX,
        cols <= DIM_MAX,
        bounded(mat_view(*y_hat), VAL_MAX as int),
        triples_wf(triples_view(ratings@), rows as int, cols as int),
        ratings@.len() <= 100_000_000,
    ensures
        q == spec_entry_sq_sum(triples_view(ratings@), mat_view(*y_hat)),
        q >= 0,
{
    let ghost tv = triples_view(ratings@);
    let ghost hv = mat_view(*y_hat);
    let n = ratings.len();
    let mut acc: i128 = 0;
    proof {
        assert(tv.take(0) =~= Seq::<(int, int, int)>::empty());
    }
    for idx in 0..n
        invariant
            n == ratings@.len(),
            ratings@.len() <= 100_000_000,
            tv == triples_view(ratings@),
            hv == mat_view(*y_hat),
            is_rect(hv, rows as int, cols as int),
            rows <= DIM_MAX,
            cols <= DIM_MAX,
            bounded(hv, VAL_MAX as int),
            triples_wf(tv, rows as int, cols as int),
            acc == spec_entry_sq_sum(tv.take(idx as int), hv),
            0 <= acc <= (idx as int) * 4_000_000_000_000_000_000,
    {
        let (ri, ci, rating) = ratings[idx];
        proof {
            assert(tv[idx as int] == (ri as int, ci as int, rating as int));
            assert(0 <= ri < rows && 0 <= ci < cols && -VAL_MAX <= rating <= VAL_MAX);
            assert(hv[ri as int][ci as int] == y_hat@[ri as int]@[ci as int] as int);
            assert(-(VAL_MAX as int) <= hv[ri as int][ci as int] <= VAL_MAX as int);
        }
        let pred: i64 = y_hat[ri][ci];
        let e: i128 = (rating as i128) - (pred as i128);
        proof {
            lemma_take_push(tv, idx as int);
            lemma_entry_sq_sum_push(tv.take(idx as int), tv[idx as int], hv);
            lemma_mul_bounds(e as int, e as int, 2_000_000_000, 2_000_000_000);
            assert(e as int * (e as int) >= 0) by (nonlinear_arith);
            assert((idx as int) * 4_000_000_000_000_000_000 + 4_000_000_000_000_000_000 == ((
            idx as int) + 1) * 4_000_000_000_000_000_000) by (nonlinear_arith);
            assert(((idx as int) + 1) * 4_000_000_000_000_000_000
                <= 400_000_000_000_000_000_000_000_000) by (nonlinear_arith)
                requires
                    0 <= idx < 100_000_000,
            ;
        }
        acc = acc + e * e;
    }
    proof {
        assert(tv.take(n as int) =~= tv);
    }
    acc
}

/// Normalization-relative error: the masked squared-error sum divided by the
/// squared sum of the full rating matrix, in fixed point, truncated toward
/// zero.  An all-zero rating matrix is rejected as degenerate.
pub fn relative_error(y: &Matrix, y_hat: &Matrix, rows: usize, cols: usize) -> (r: Result<
    i128,
    MfError,
>)
    requires
        is_rect(mat_view(*y), rows as int, cols as int),
        is_rect(mat_view(*y_hat), rows as int, cols as int),
        rows <= DIM_MAX,
        cols <= DIM_MAX,
        bounded(mat_view(*y), VAL_MAX as int),
        bounded(mat_view(*y_hat), VAL_MAX as int),
    ensures
        ({
            let yv = mat_view(*y);
            let num = spec_sq_sum(spec_masked_diff(yv, mat_view(*y_hat), spec_mask(yv)));
            let den = spec_sq_sum(yv);
            match r {
                Ok(e) => e == t_div(num * (SCALE as int), den) && den > 0,
                Err(e) => e == MfError::EmptyDataset && den == 0,
            }
        }),
{
    let ghost yv = mat_view(*y);
    let den = sq_sum(y, rows, cols);
    if den == 0 {
        return Err(MfError::EmptyDataset);
    }
    let mask = mask_of(y, rows, cols);
    let d = masked_diff(y, y_hat, &mask, rows, cols);
    let num = sq_sum(&d, rows, cols);
    proof {
        lemma_sq_sum_bound(mat_view(d), cols as int, 2 * (VAL_MAX as int));
        assert((rows as int) * ((cols as int) * ((2 * (VAL_MAX as int)) * (2 * (VAL_MAX as int))))
            <= 400_000_000_000_000_000_000_000_000) by (nonlinear_arith)
            requires
                0 <= rows <= 10_000,
                0 <= cols <= 10_000,
                VAL_MAX == 1_000_000_000,
        ;
        assert(num * (SCALE as int) <= 400_000_000_000_000_000_000_000_000_000_000)
            by (nonlinear_arith)
            requires
                0 <= num <= 400_000_000_000_000_000_000_000_000,
                SCALE == 1_000_000,
        ;
        assert(num * (SCALE as int) >= 0) by (nonlinear_arith)
            requires
                num >= 0,
                SCALE == 1_000_000,
        ;
    }
    let e = div_trunc(num * (SCALE as i128), den);
    Ok(e)
}

} // verus!
