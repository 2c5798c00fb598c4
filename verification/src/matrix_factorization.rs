//! Full-batch gradient-descent trainer.
//!
//! Each step reconstructs the whole prediction matrix `U * V^T`, forms the
//! masked difference against the ratings, tests the exact mean-squared error
//! against the threshold, and applies the gradient updates
//! `U <- U + (alpha / count) * D * V` and `V <- V + (alpha / count) * D^T * U`,
//! both computed from the same pre-update factors.  The run ends converged,
//! step-budget-exhausted, or overflowed, and the whole trajectory is pinned
//! down by [`spec_batch_run`].

use vstd::prelude::*;
use crate::fixed::{
    SCALE, VAL_MAX, DIM_MAX, t_div, div_trunc, lemma_mul_bounds, lemma_t_div_bounds,
};
use crate::matrix::{
    Matrix, mat_view, row_view, is_rect, bounded, spec_dot, col, spec_matmul_t, spec_sq_sum,
    spec_filled, lemma_take_push, lemma_row_view_push, lemma_mat_view_push, lemma_dot_push,
    lemma_mat_sum_bound, filled, mat_sum, sq_sum, matmul_t,
};
use crate::metrics::{
    spec_mask, spec_masked_diff, spec_mse_count, is_mask, lemma_mat_sum_nonneg, mask_of,
    masked_diff,
};
use crate::config::{Config, CountMode, MfError, RunState, RunStatus, TrainResult};
use crate::post::{PostProcessMode, spec_post, post_process};

verus! {

/// Scaling convention of the gradient: the update is
/// `(GRADIENT_SCALE * alpha / count) * D * V`.  The squared-error loss also
/// admits a convention with an extra factor of two; this library fixes the
/// factor at one, as a named constant rather than an implicit choice.
pub const GRADIENT_SCALE: i64 = 1;

/// The updated user factors: `U + (GRADIENT_SCALE * alpha / count) * D * V`,
/// every entry computed from the pre-update `U` and `V`.
pub open spec fn spec_new_u(
    u: Seq<Seq<int>>,
    v: Seq<Seq<int>>,
    d: Seq<Seq<int>>,
    alpha: int,
    count: int,
) -> Seq<Seq<int>> {
    Seq::new(
        u.len(),
        |i: int|
            Seq::new(
                u[i].len(),
                |l: int|
                    u[i][l] + t_div(
                        GRADIENT_SCALE * alpha * spec_dot(d[i], col(v, l)),
                        count * ((SCALE as int) * (SCALE as int)),
                    ),
            ),
    )
}

/// The updated item factors: `V + (GRADIENT_SCALE * alpha / count) * D^T * U`,
/// every entry computed from the pre-update `U` and `V`.
pub open spec fn spec_new_v(
    u: Seq<Seq<int>>,
    v: Seq<Seq<int>>,
    d: Seq<Seq<int>>,
    alpha: int,
    count: int,
) -> Seq<Seq<int>> {
    Seq::new(
        v.len(),
        |j: int|
            Seq::new(
                v[j].len(),
                |l: int|
                    v[j][l] + t_div(
                        GRADIENT_SCALE * alpha * spec_dot(col(d, j), col(u, l)),
                        count * ((SCALE as int) * (SCALE as int)),
                    ),
            ),
    )
}

/// The exact convergence test: the rational mean-squared error
/// `q / (count * SCALE^2)` is at most the threshold `threshold / SCALE`.
pub open spec fn spec_batch_converged(q: int, threshold: int, count: int) -> bool {
    q <= threshold * (count * (SCALE as int))
}

/// The batch trainer's state machine, run to its terminal state: starting
/// from factors `u` and `v` with `steps_left` steps of budget remaining and
/// `steps_done` already performed, the run ends converged, exhausted, or
/// overflowed, with the factors it ended on.
pub open spec fn spec_batch_run(
    y: Seq<Seq<int>>,
    mask: Seq<Seq<int>>,
    u: Seq<Seq<int>>,
    v: Seq<Seq<int>>,
    alpha: int,
    threshold: int,
    count: int,
    steps_left: nat,
    steps_done: int,
) -> RunState
    decreases steps_left,
{
    let est = spec_matmul_t(u, v);
    if !bounded(est, VAL_MAX as int) {
        RunState { u, v, steps: steps_done, status: RunStatus::Overflowed }
    } else {
        let d = spec_masked_diff(y, est, mask);
        let q = spec_sq_sum(d);
        if spec_batch_converged(q, threshold, count) {
            RunState { u, v, steps: steps_done, status: RunStatus::Converged }
        } else if steps_left == 0 {
            RunState { u, v, steps: steps_done, status: RunStatus::Exhausted }
        } else {
            let u2 = spec_new_u(u, v, d, alpha, count);
            let v2 = spec_new_v(u, v, d, alpha, count);
            if !bounded(u2, VAL_MAX as int) || !bounded(v2, VAL_MAX as int) {
                RunState { u: u2, v: v2, steps: steps_done + 1, status: RunStatus::Overflowed }
            } else {
                spec_batch_run(
                    y,
                    mask,
                    u2,
                    v2,
                    alpha,
                    threshold,
                    count,
                    (steps_left - 1) as nat,
                    steps_done + 1,
                )
            }
        }
    }
}

/// Convergence detection is sound: whenever a batch run ends converged, the
/// exact mean-squared error of the factors it ended on is at most the
/// threshold.
pub proof fn lemma_batch_converged_meets_threshold(
    y: Seq<Seq<int>>,
    mask: Seq<Seq<int>>,
    u: Seq<Seq<int>>,
    v: Seq<Seq<int>>,
    alpha: int,
    threshold: int,
    count: int,
    steps_left: nat,
    steps_done: int,
)
    ensures
        ({
            let fin = spec_batch_run(y, mask, u, v, alpha, threshold, count, steps_left, steps_done);
            fin.status == RunStatus::Converged ==> spec_batch_converged(
                spec_sq_sum(spec_masked_diff(y, spec_matmul_t(fin.u, fin.v), mask)),
                threshold,
                count,
            )
        }),
    decreases steps_left,
{
    let est = spec_matmul_t(u, v);
    if bounded(est, VAL_MAX as int) {
        let d = spec_masked_diff(y, est, mask);
        let q = spec_sq_sum(d);
        if !spec_batch_converged(q, threshold, count) && steps_left > 0 {
            let u2 = spec_new_u(u, v, d, alpha, count);
            let v2 = spec_new_v(u, v, d, alpha, count);
            if bounded(u2, VAL_MAX as int) && bounded(v2, VAL_MAX as int) {
                lemma_batch_converged_meets_threshold(
                    y,
                    mask,
                    u2,
                    v2,
                    alpha,
                    threshold,
                    count,
                    (steps_left - 1) as nat,
                    steps_done + 1,
                );
            }
        }
    }
}

/// Both gradient updates applied simultaneously from the same pre-update
/// factors, or `None` when an updated entry leaves the representable range.
fn batch_new_factors(
    u: &Matrix,
    v: &Matrix,
    d: &Matrix,
    alpha: i64,
    count: i128,
    rows: usize,
    cols: usize,
    k: usize,
) -> (r: Option<(Matrix, Matrix)>)
    requires
        is_rect(mat_view(*u), rows as int, k as int),
        is_rect(mat_view(*v), cols as int, k as int),
        is_rect(mat_view(*d), rows as int, cols as int),
        rows <= DIM_MAX,
        cols <= DIM_MAX,
        k <= DIM_MAX,
        bounded(mat_view(*u), VAL_MAX as int),
        bounded(mat_view(*v), VAL_MAX as int),
        bounded(mat_view(*d), 2 * (VAL_MAX as int)),
        0 < alpha <= VAL_MAX,
        1 <= count <= 100_000_000,
    ensures
        ({
            let nu = spec_new_u(mat_view(*u), mat_view(*v), mat_view(*d), alpha as int, count as int);
            let nv = spec_new_v(mat_view(*u), mat_view(*v), mat_view(*d), alpha as int, count as int);
            match r {
                Some(p) => mat_view(p.0) == nu && mat_view(p.1) == nv && is_rect(
                    mat_view(p.0),
                    rows as int,
                    k as int,
                ) && is_rect(mat_view(p.1), cols as int, k as int) && bounded(
                    mat_view(p.0),
                    VAL_MAX as int,
                ) && bounded(mat_view(p.1), VAL_MAX as int),
                None => !bounded(nu, VAL_MAX as int) || !bounded(nv, VAL_MAX as int),
            }
        }),
{
    let ghost uv = mat_view(*u);
    let ghost vv = mat_view(*v);
    let ghost dv = mat_view(*d);
    let ghost target_u = spec_new_u(uv, vv, dv, alpha as int, count as int);
    let ghost target_v = spec_new_v(uv, vv, dv, alpha as int, count as int);
    proof {
        assert(1 <= count * ((SCALE as int) * (SCALE as int)) <= 100_000_000_000_000_000_000)
            by (nonlinear_arith)
            requires
                1 <= count <= 100_000_000,
                SCALE == 1_000_000,
        ;
    }
    let den: i128 = count * ((SCALE as i128) * (SCALE as i128));
    let mut nu: Matrix = Vec::new();
    proof {
        assert(mat_view(nu) =~= target_u.take(0));
    }
    for i in 0..rows
        invariant
            is_rect(uv, rows as int, k as int),
            is_rect(vv, cols as int, k as int),
            is_rect(dv, rows as int, cols as int),
            uv == mat_view(*u),
            vv == mat_view(*v),
            dv == mat_view(*d),
            target_u == spec_new_u(uv, vv, dv, alpha as int, count as int),
            rows <= DIM_MAX,
            cols <= DIM_MAX,
            k <= DIM_MAX,
            bounded(uv, VAL_MAX as int),
            bounded(vv, VAL_MAX as int),
            bounded(dv, 2 * (VAL_MAX as int)),
            0 < alpha <= VAL_MAX,
            1 <= count <= 100_000_000,
            den == count * ((SCALE as int) * (SCALE as int)),
            1 <= den <= 100_000_000_000_000_000_000,
            nu@.len() == i,
            mat_view(nu) == target_u.take(i as int),
            forall|ii: int, ll: int|
                0 <= ii < i && 0 <= ll < k ==> -(VAL_MAX as int) <= #[trigger] target_u[ii][ll]
                    <= VAL_MAX as int,
    {
        let mut row: Vec<i64> = Vec::new();
        let ghost target_row = target_u[i as int];
        proof {
            assert(row_view(row) =~= target_row.take(0));
        }
        for l in 0..k
            invariant
                is_rect(uv, rows as int, k as int),
                is_rect(vv, cols as int, k as int),
                is_rect(dv, rows as int, cols as int),
                uv == mat_view(*u),
                vv == mat_view(*v),
                dv == mat_view(*d),
                target_u == spec_new_u(uv, vv, dv, alpha as int, count as int),
                target_row == target_u[i as int],
                0 <= i < rows,
                rows <= DIM_MAX,
                cols <= DIM_MAX,
                k <= DIM_MAX,
                bounded(uv, VAL_MAX as int),
                bounded(vv, VAL_MAX as int),
                bounded(dv, 2 * (VAL_MAX as int)),
                0 < alpha <= VAL_MAX,
                1 <= count <= 100_000_000,
                den == count * ((SCALE as int) * (SCALE as int)),
                1 <= den <= 100_000_000_000_000_000_000,
                row@.len() == l,
                row_view(row) == target_row.take(l as int),
                forall|ll: int|
                    0 <= ll < l ==> -(VAL_MAX as int) <= #[trigger] target_row[ll]
                        <= VAL_MAX as int,
        {
            let ghost dcol = col(vv, l as int);
            let mut acc: i128 = 0;
            proof {
                assert(dv[i as int].take(0) =~= Seq::<int>::empty());
                assert(dcol.take(0) =~= Seq::<int>::empty());
            }
            for j in 0..cols
                invariant
                    is_rect(vv, cols as int, k as int),
                    is_rect(dv, rows as int, cols as int),
                    vv == mat_view(*v),
                    dv == mat_view(*d),
                    dcol == col(vv, l as int),
                    0 <= i < rows,
                    0 <= l < k,
                    rows <= DIM_MAX,
                    cols <= DIM_MAX,
                    k <= DIM_MAX,
                    bounded(vv, VAL_MAX as int),
                    bounded(dv, 2 * (VAL_MAX as int)),
                    acc == spec_dot(dv[i as int].take(j as int), dcol.take(j as int)),
                    -((j as int) * 2_000_000_000_000_000_000) <= acc <= (j as int)
                        * 2_000_000_000_000_000_000,
            {
                let ghost x = dv[i as int][j as int];
                let ghost yv2 = dcol[j as int];
                proof {
                    assert(x == d@[i as int]@[j as int] as int);
                    assert(yv2 == vv[j as int][l as int]);
                    assert(yv2 == v@[j as int]@[l as int] as int);
                    assert(-2 * (VAL_MAX as int) <= x <= 2 * (VAL_MAX as int));
                    assert(-(VAL_MAX as int) <= yv2 <= VAL_MAX as int);
                    lemma_take_push(dv[i as int], j as int);
                    lemma_take_push(dcol, j as int);
                    lemma_dot_push(dv[i as int].take(j as int), dcol.take(j as int), x, yv2);
                    lemma_mul_bounds(x, yv2, 2_000_000_000, 1_000_000_000);
                    assert((j as int) * 2_000_000_000_000_000_000 + 2_000_000_000_000_000_000 == ((
                    j as int) + 1) * 2_000_000_000_000_000_000) by (nonlinear_arith);
                    assert(((j as int) + 1) * 2_000_000_000_000_000_000
                        <= 20_000_000_000_000_000_000_000) by (nonlinear_arith)
                        requires
                            0 <= j < 10_000,
                    ;
                }
                acc = acc + (d[i][j] as i128) * (v[j][l] as i128);
            }
            proof {
                assert(dv[i as int].take(cols as int) =~= dv[i as int]);
                assert(dcol.take(cols as int) =~= dcol);
                assert(-(10_000int * 2_000_000_000_000_000_000) <= acc <= 10_000int
                    * 2_000_000_000_000_000_000) by (nonlinear_arith)
                    requires
                        -((cols as int) * 2_000_000_000_000_000_000) <= acc <= (cols as int)
                            * 2_000_000_000_000_000_000,
                        0 <= cols <= 10_000,
                ;
            }
            proof {
                assert(-(20_000_000_000_000_000_000_000_000_000_000int) <= (alpha as int) * acc
                    <= 20_000_000_000_000_000_000_000_000_000_000int) by (nonlinear_arith)
                    requires
                        0 < alpha <= 1_000_000_000,
                        -(20_000_000_000_000_000_000_000int) <= acc
                            <= 20_000_000_000_000_000_000_000int,
                ;
            }
            let num: i128 = (GRADIENT_SCALE as i128) * (alpha as i128) * acc;
            proof {
                lemma_t_div_bounds(num as int, den as int);
            }
            let delta = div_trunc(num, den);
            let cand: i128 = (u[i][l] as i128) + delta;
            proof {
                assert(uv[i as int][l as int] == u@[i as int]@[l as int] as int);
                assert(-(VAL_MAX as int) <= uv[i as int][l as int] <= VAL_MAX as int);
                assert(target_row[l as int] == uv[i as int][l as int] + t_div(
                    GRADIENT_SCALE * (alpha as int) * spec_dot(dv[i as int], col(vv, l as int)),
                    (count as int) * ((SCALE as int) * (SCALE as int)),
                ));
                assert(cand == target_row[l as int]);
            }
            if cand > VAL_MAX as i128 || cand < -(VAL_MAX as i128) {
                proof {
                    assert(target_u[i as int][l as int] == cand);
                    assert(!bounded(target_u, VAL_MAX as int));
                }
                return None;
            }
            let ghost pre = row;
            row.push(cand as i64);
            proof {
                lemma_row_view_push(pre, row, cand as i64);
                lemma_take_push(target_row, l as int);
            }
        }
        let ghost pre_out = nu;
        proof {
            assert(target_row.take(k as int) =~= target_row);
        }
        nu.push(row);
        proof {
            lemma_mat_view_push(pre_out, nu, row);
            lemma_take_push(target_u, i as int);
        }
    }
    proof {
        assert(target_u.take(rows as int) =~= target_u);
        assert(is_rect(target_u, rows as int, k as int));
        assert(bounded(target_u, VAL_MAX as int));
    }
    let mut nv: Matrix = Vec::new();
    proof {
        assert(mat_view(nv) =~= target_v.take(0));
    }
    for j in 0..cols
        invariant
            is_rect(uv, rows as int, k as int),
            is_rect(vv, cols as int, k as int),
            is_rect(dv, rows as int, cols as int),
            uv == mat_view(*u),
            vv == mat_view(*v),
            dv == mat_view(*d),
            target_v == spec_new_v(uv, vv, dv, alpha as int, count as int),
            rows <= DIM_MAX,
            cols <= DIM_MAX,
            k <= DIM_MAX,
            bounded(uv, VAL_MAX as int),
            bounded(vv, VAL_MAX as int),
            bounded(dv, 2 * (VAL_MAX as int)),
            0 < alpha <= VAL_MAX,
            1 <= count <= 100_000_000,
            den == count * ((SCALE as int) * (SCALE as int)),
            1 <= den <= 100_000_000_000_000_000_000,
            nv@.len() == j,
            mat_view(nv) == target_v.take(j as int),
            forall|jj: int, ll: int|
                0 <= jj < j && 0 <= ll < k ==> -(VAL_MAX as int) <= #[trigger] target_v[jj][ll]
                    <= VAL_MAX as int,
    {
        let mut row: Vec<i64> = Vec::new();
        let ghost target_row = target_v[j as int];
        proof {
            assert(row_view(row) =~= target_row.take(0));
        }
        for l in 0..k
            invariant
                is_rect(uv, rows as int, k as int),
                is_rect(vv, cols as int, k as int),
                is_rect(dv, rows as int, cols as int),
                uv == mat_view(*u),
                vv == mat_view(*v),
                dv == mat_view(*d),
                target_v == spec_new_v(uv, vv, dv, alpha as int, count as int),
                target_row == target_v[j as int],
                0 <= j < cols,
                rows <= DIM_MAX,
                cols <= DIM_MAX,
                k <= DIM_MAX,
                bounded(uv, VAL_MAX as int),
                bounded(vv, VAL_MAX as int),
                bounded(dv, 2 * (VAL_MAX as int)),
                0 < alpha <= VAL_MAX,
                1 <= count <= 100_000_000,
                den == count * ((SCALE as int) * (SCALE as int)),
                1 <= den <= 100_000_000_000_000_000_000,
                row@.len() == l,
                row_view(row) == target_row.take(l as int),
                forall|ll: int|
                    0 <= ll < l ==> -(VAL_MAX as int) <= #[trigger] target_row[ll]
                        <= VAL_MAX as int,
        {
            let ghost dcol = col(dv, j as int);
            let ghost ucol = col(uv, l as int);
            let mut acc: i128 = 0;
            proof {
                assert(dcol.take(0) =~= Seq::<int>::empty());
                assert(ucol.take(0) =~= Seq::<int>::empty());
            }
            for i in 0..rows
                invariant
                    is_rect(uv, rows as int, k as int),
                    is_rect(dv, rows as int, cols as int),
                    uv == mat_view(*u),
                    dv == mat_view(*d),
                    dcol == col(dv, j as int),
                    ucol == col(uv, l as int),
                    0 <= j < cols,
                    0 <= l < k,
                    rows <= DIM_MAX,
                    cols <= DIM_MAX,
                    k <= DIM_MAX,
                    bounded(uv, VAL_MAX as int),
                    bounded(dv, 2 * (VAL_MAX as int)),
                    acc == spec_dot(dcol.take(i as int), ucol.take(i as int)),
                    -((i as int) * 2_000_000_000_000_000_000) <= acc <= (i as int)
                        * 2_000_000_000_000_000_000,
            {
                let ghost x = dcol[i as int];
                let ghost yv2 = ucol[i as int];
                proof {
                    assert(x == dv[i as int][j as int]);
                    assert(x == d@[i as int]@[j as int] as int);
                    assert(yv2 == uv[i as int][l as int]);
                    assert(yv2 == u@[i as int]@[l as int] as int);
                    assert(-2 * (VAL_MAX as int) <= x <= 2 * (VAL_MAX as int));
                    assert(-(VAL_MAX as int) <= yv2 <= VAL_MAX as int);
                    lemma_take_push(dcol, i as int);
                    lemma_take_push(ucol, i as int);
                    lemma_dot_push(dcol.take(i as int), ucol.take(i as int), x, yv2);
                    lemma_mul_bounds(x, yv2, 2_000_000_000, 1_000_000_000);
                    assert((i as int) * 2_000_000_000_000_000_000 + 2_000_000_000_000_000_000 == ((
                    i as int) + 1) * 2_000_000_000_000_000_000) by (nonlinear_arith);
                    assert(((i as int) + 1) * 2_000_000_000_000_000_000
                        <= 20_000_000_000_000_000_000_000) by (nonlinear_arith)
                        requires
                            0 <= i < 10_000,
                    ;
                }
                acc = acc + (d[i][j] as i128) * (u[i][l] as i128);
            }
            proof {
                assert(dcol.take(rows as int) =~= dcol);
                assert(ucol.take(rows as int) =~= ucol);
                assert(-(10_000int * 2_000_000_000_000_000_000) <= acc <= 10_000int
                    * 2_000_000_000_000_000_000) by (nonlinear_arith)
                    requires
                        -((rows as int) * 2_000_000_000_000_000_000) <= acc <= (rows as int)
                            * 2_000_000_000_000_000_000,
                        0 <= rows <= 10_000,
                ;
            }
            proof {
                assert(-(20_000_000_000_000_000_000_000_000_000_000int) <= (alpha as int) * acc
                    <= 20_000_000_000_000_000_000_000_000_000_000int) by (nonlinear_arith)
                    requires
                        0 < alpha <= 1_000_000_000,
                        -(20_000_000_000_000_000_000_000int) <= acc
                            <= 20_000_000_000_000_000_000_000int,
                ;
            }
            let num: i128 = (GRADIENT_SCALE as i128) * (alpha as i128) * acc;
            proof {
                lemma_t_div_bounds(num as int, den as int);
            }
            let delta = div_trunc(num, den);
            let cand: i128 = (v[j][l] as i128) + delta;
            proof {
                assert(vv[j as int][l as int] == v@[j as int]@[l as int] as int);
                assert(-(VAL_MAX as int) <= vv[j as int][l as int] <= VAL_MAX as int);
                assert(target_row[l as int] == vv[j as int][l as int] + t_div(
                    GRADIENT_SCALE * (alpha as int) * spec_dot(col(dv, j as int), col(uv, l as int)),
                    (count as int) * ((SCALE as int) * (SCALE as int)),
                ));
                assert(cand == target_row[l as int]);
            }
            if cand > VAL_MAX as i128 || cand < -(VAL_MAX as i128) {
                proof {
                    assert(target_v[j as int][l as int] == cand);
                    assert(!bounded(target_v, VAL_MAX as int));
                }
                return None;
            }
            let ghost pre = row;
            row.push(cand as i64);
            proof {
                lemma_row_view_push(pre, row, cand as i64);
                lemma_take_push(target_row, l as int);
            }
        }
        let ghost pre_out = nv;
        proof {
            assert(target_row.take(k as int) =~= target_row);
        }
        nv.push(row);
        proof {
            lemma_mat_view_push(pre_out, nv, row);
            lemma_take_push(target_v, j as int);
        }
    }
    proof {
        assert(target_v.take(cols as int) =~= target_v);
        assert(is_rect(target_v, cols as int, k as int));
        assert(bounded(target_v, VAL_MAX as int));
    }
    Some((nu, nv))
}

/// The full-batch gradient-descent trainer.
pub struct MatrixFactorization {
    pub config: Config,
}

impl MatrixFactorization {
    /// A batch trainer with the classic defaults of this library: factors
    /// initialized to three and a half, bucket post-processing, and the
    /// observed-entries denominator for the mean-squared error.
    pub fn new(k_latent: usize, threshold: i64, alpha: i64, max_steps: usize) -> (r:
        MatrixFactorization)
        requires
            1 <= k_latent <= DIM_MAX,
            0 <= threshold <= VAL_MAX,
            0 < alpha <= VAL_MAX,
            max_steps >= 1,
        ensures
            r.config == (Config {
                k_latent,
                alpha,
                max_steps,
                threshold,
                init_value: 3_500_000,
                post_process: PostProcessMode::Bucket,
                count_mode: CountMode::Observed,
            }),
            r.config.valid(),
    {
        MatrixFactorization {
            config: Config {
                k_latent,
                alpha,
                max_steps,
                threshold,
                init_value: 3_500_000,
                post_process: PostProcessMode::Bucket,
                count_mode: CountMode::Observed,
            },
        }
    }

    /// A batch trainer with a fully explicit configuration.
    pub fn from_config(config: Config) -> (r: MatrixFactorization)
        requires
            config.valid(),
        ensures
            r.config == config,
    {
        MatrixFactorization { config }
    }

    /// The terminal state this trainer's run reaches on the given ratings.
    pub open spec fn spec_run(self, y: Seq<Seq<int>>, rows: int, cols: int) -> RunState {
        let mask = spec_mask(y);
        let count = spec_mse_count(self.config.count_mode, mask, rows, cols);
        spec_batch_run(
            y,
            mask,
            spec_filled(rows, self.config.k_latent as int, self.config.init_value as int),
            spec_filled(cols, self.config.k_latent as int, self.config.init_value as int),
            self.config.alpha as int,
            self.config.threshold as int,
            count,
            self.config.max_steps as nat,
            0,
        )
    }

    /// The gradient-descent loop: initialize the factors, iterate until the
    /// threshold or the step budget is reached, and hand back the raw
    /// reconstruction, the exact truncated error, the step count, and
    /// whether the run converged.
    fn sgd(&self, y: &Matrix, rows: usize, cols: usize) -> (r: Result<
        (Matrix, i128, usize, bool),
        MfError,
    >)
        requires
            self.config.valid(),
            is_rect(mat_view(*y), rows as int, cols as int),
            rows <= DIM_MAX,
            cols <= DIM_MAX,
            bounded(mat_view(*y), VAL_MAX as int),
        ensures
            ({
                let yv = mat_view(*y);
                let mask = spec_mask(yv);
                let count = spec_mse_count(self.config.count_mode, mask, rows as int, cols as int);
                let fin = self.spec_run(yv, rows as int, cols as int);
                match r {
                    Ok(t) => count > 0 && fin.status != RunStatus::Overflowed && mat_view(t.0)
                        == spec_matmul_t(fin.u, fin.v) && is_rect(
                        mat_view(t.0),
                        rows as int,
                        cols as int,
                    ) && bounded(mat_view(t.0), VAL_MAX as int) && t.1 == t_div(
                        spec_sq_sum(spec_masked_diff(yv, spec_matmul_t(fin.u, fin.v), mask)),
                        count * (SCALE as int),
                    ) && t.2 == fin.steps && (t.3 <==> fin.status == RunStatus::Converged),
                    Err(e) => (e == MfError::EmptyDataset && count == 0) || (e
                        == MfError::NumericOverflow && count > 0 && fin.status
                        == RunStatus::Overflowed),
                }
            }),
    {
        let ghost yv = mat_view(*y);
        let cfg = self.config;
        let mask = mask_of(y, rows, cols);
        let ghost maskv = spec_mask(yv);
        let count: i128 = match cfg.count_mode {
            CountMode::Observed => {
                proof {
                    lemma_mat_sum_nonneg(maskv);
                    lemma_mat_sum_bound(maskv, cols as int, 1);
                    assert((rows as int) * ((cols as int) * 1) <= 100_000_000) by (nonlinear_arith)
                        requires
                            0 <= rows <= 10_000,
                            0 <= cols <= 10_000,
                    ;
                }
                mat_sum(&mask, rows, cols)
            },
            CountMode::AllCells => {
                proof {
                    assert(0 <= (rows as int) * (cols as int) <= 100_000_000) by (nonlinear_arith)
                        requires
                            0 <= rows <= 10_000,
                            0 <= cols <= 10_000,
                    ;
                }
                (rows as i128) * (cols as i128)
            },
        };
        proof {
            assert(count == spec_mse_count(cfg.count_mode, maskv, rows as int, cols as int));
            assert(0 <= count <= 100_000_000);
        }
        if count == 0 {
            return Err(MfError::EmptyDataset);
        }
        let mut u = filled(rows, cfg.k_latent, cfg.init_value);
        let mut v = filled(cols, cfg.k_latent, cfg.init_value);
        let mut step: usize = 0;
        let ghost fin = self.spec_run(yv, rows as int, cols as int);
        loop
            invariant
                self.config == cfg,
                cfg.valid(),
                yv == mat_view(*y),
                maskv == spec_mask(yv),
                is_rect(yv, rows as int, cols as int),
                is_rect(maskv, rows as int, cols as int),
                is_mask(maskv),
                mat_view(mask) == maskv,
                rows <= DIM_MAX,
                cols <= DIM_MAX,
                bounded(yv, VAL_MAX as int),
                1 <= count <= 100_000_000,
                count == spec_mse_count(cfg.count_mode, maskv, rows as int, cols as int),
                is_rect(mat_view(u), rows as int, cfg.k_latent as int),
                is_rect(mat_view(v), cols as int, cfg.k_latent as int),
                bounded(mat_view(u), VAL_MAX as int),
                bounded(mat_view(v), VAL_MAX as int),
                step <= cfg.max_steps,
                fin == self.spec_run(yv, rows as int, cols as int),
                fin == spec_batch_run(
                    yv,
                    maskv,
                    mat_view(u),
                    mat_view(v),
                    cfg.alpha as int,
                    cfg.threshold as int,
                    count as int,
                    (cfg.max_steps - step) as nat,
                    step as int,
                ),
            decreases cfg.max_steps - step,
        {
            let est_opt = matmul_t(&u, &v, rows, cols, cfg.k_latent);
            match est_opt {
                None => {
                    proof {
                        assert(fin.status == RunStatus::Overflowed);
                    }
                    return Err(MfError::NumericOverflow);
                },
                Some(est) => {
                    let d = masked_diff(y, &est, &mask, rows, cols);
                    let q = sq_sum(&d, rows, cols);
                    proof {
                        assert(1 <= count * (SCALE as int) <= 100_000_000_000_000)
                            by (nonlinear_arith)
                            requires
                                1 <= count <= 100_000_000,
                                SCALE == 1_000_000,
                        ;
                        assert(0 <= (cfg.threshold as int) * (count * (SCALE as int))
                            <= 100_000_000_000_000_000_000_000) by (nonlinear_arith)
                            requires
                                0 <= cfg.threshold <= 1_000_000_000,
                                1 <= count * (SCALE as int) <= 100_000_000_000_000,
                        ;
                    }
                    let bound: i128 = (cfg.threshold as i128) * (count * (SCALE as i128));
                    let conv = q <= bound;
                    if conv || step == cfg.max_steps {
                        proof {
                            assert(fin == RunState {
                                u: mat_view(u),
                                v: mat_view(v),
                                steps: step as int,
                                status: if conv {
                                    RunStatus::Converged
                                } else {
                                    RunStatus::Exhausted
                                },
                            });
                        }
                        let err = div_trunc(q, count * (SCALE as i128));
                        return Ok((est, err, step, conv));
                    }
                    let upd = batch_new_factors(&u, &v, &d, cfg.alpha, count, rows, cols, cfg.k_latent);
                    match upd {
                        None => {
                            proof {
                                assert(fin.status == RunStatus::Overflowed);
                            }
                            return Err(MfError::NumericOverflow);
                        },
                        Some(p) => {
                            let (nu, nv) = p;
                            proof {
                                assert(spec_batch_run(
                                    yv,
                                    maskv,
                                    mat_view(u),
                                    mat_view(v),
                                    cfg.alpha as int,
                                    cfg.threshold as int,
                                    count as int,
                                    (cfg.max_steps - step) as nat,
                                    step as int,
                                ) == spec_batch_run(
                                    yv,
                                    maskv,
                                    mat_view(nu),
                                    mat_view(nv),
                                    cfg.alpha as int,
                                    cfg.threshold as int,
                                    count as int,
                                    (cfg.max_steps - (step + 1)) as nat,
                                    step as int + 1,
                                ));
                            }
                            u = nu;
                            v = nv;
                            step = step + 1;
                        },
                    }
                },
            }
        }
    }

    /// Train on the given rating matrix: run the gradient-descent loop and
    /// map the final reconstruction onto the rating scale with the
    /// configured post-processing strategy.
    ///
    /// The prediction matrix always has the shape of the input matrix.  A
    /// dataset with a zero error denominator is rejected as degenerate, and
    /// a run whose factors or predictions leave the representable range
    /// reports a numeric overflow.
    pub fn train(&self, y: &Matrix, rows: usize, cols: usize) -> (r: Result<TrainResult, MfError>)
        requires
            self.config.valid(),
            is_rect(mat_view(*y), rows as int, cols as int),
            rows <= DIM_MAX,
            cols <= DIM_MAX,
            bounded(mat_view(*y), VAL_MAX as int),
        ensures
            ({
                let yv = mat_view(*y);
                let mask = spec_mask(yv);
                let count = spec_mse_count(self.config.count_mode, mask, rows as int, cols as int);
                let fin = self.spec_run(yv, rows as int, cols as int);
                match r {
                    Ok(t) => count > 0 && fin.status != RunStatus::Overflowed && mat_view(
                        t.prediction,
                    ) == spec_post(spec_matmul_t(fin.u, fin.v), self.config.post_process)
                        && is_rect(mat_view(t.prediction), rows as int, cols as int) && t.error
                        == t_div(
                        spec_sq_sum(spec_masked_diff(yv, spec_matmul_t(fin.u, fin.v), mask)),
                        count * (SCALE as int),
                    ) && t.iterations == fin.steps && (t.converged <==> fin.status
                        == RunStatus::Converged),
                    Err(e) => (e == MfError::EmptyDataset && count == 0) || (e
                        == MfError::NumericOverflow && count > 0 && fin.status
                        == RunStatus::Overflowed),
                }
            }),
    {
        let out = self.sgd(y, rows, cols);
        match out {
            Ok(t) => {
                let (est, err, steps, conv) = t;
                let pred = post_process(&est, rows, cols, self.config.post_process);
                Ok(TrainResult { prediction: pred, error: err, iterations: steps, converged: conv })
            },
            Err(e) => Err(e),
        }
    }
}

} // verus!
