//! Stochastic gradient-descent trainer.
//!
//! Instead of reconstructing the whole matrix each step, the stochastic
//! trainer extracts the observed `(row, column, rating)` triples once and,
//! epoch by epoch, updates only the two factor rows each triple touches:
//! `U[row] <- U[row] + alpha * e * V[col]` and
//! `V[col] <- V[col] + alpha * e * U[row]`, both deltas computed from the
//! rows as they stood before either write.  After each epoch the mean of
//! squared errors over the triple list decides convergence.  The whole
//! trajectory is pinned down by [`spec_stoch_run`].

use vstd::prelude::*;
use crate::fixed::{
    SCALE, VAL_MAX, DIM_MAX, t_div, div_trunc, lemma_t_div_mag,
};
use crate::matrix::{
    Matrix, mat_view, row_view, is_rect, bounded, spec_dot, spec_matmul_t, spec_filled,
    lemma_take_push, lemma_row_view_push, lemma_mat_view_set, lemma_dot_bound, filled, dot,
    matmul_t,
};
use crate::metrics::{
    triples_view, triples_wf, spec_entry_sq_sum, entry_sq_sum,
};
use crate::config::{Config, CountMode, MfError, RunState, RunStatus, TrainResult};
use crate::post::{PostProcessMode, spec_post, post_process};

verus! {

/// The observed triples of one row of the rating matrix, in column order:
/// one `(i, j, rating)` triple for every non-zero cell.
pub open spec fn spec_row_triples(r: Seq<int>, i: int) -> Seq<(int, int, int)>
    decreases r.len(),
{
    if r.len() == 0 {
        Seq::empty()
    } else {
        spec_row_triples(r.drop_last(), i) + (if r.last() != 0 {
            seq![(i, r.len() - 1, r.last())]
        } else {
            Seq::empty()
        })
    }
}

/// The observed triples of the whole rating matrix, in row-major order.
pub open spec fn spec_triples(y: Seq<Seq<int>>) -> Seq<(int, int, int)>
    decreases y.len(),
{
    if y.len() == 0 {
        Seq::empty()
    } else {
        spec_triples(y.drop_last()) + spec_row_triples(y.last(), y.len() - 1)
    }
}

/// Scanning one more cell of a row appends its triple when it is observed.
proof fn lemma_row_triples_take_step(r: Seq<int>, i: int, j: int)
    requires
        0 <= j < r.len(),
    ensures
        spec_row_triples(r.take(j + 1), i) == spec_row_triples(r.take(j), i) + (if r[j] != 0 {
            seq![(i, j, r[j])]
        } else {
            Seq::<(int, int, int)>::empty()
        }),
{
    lemma_take_push(r, j);
    let s = r.take(j);
    assert(s.push(r[j]).drop_last() =~= s);
    assert(s.push(r[j]).last() == r[j]);
    assert(s.push(r[j]).len() - 1 == j);
}

/// Scanning one more row appends that row's triples.
proof fn lemma_triples_take_step(y: Seq<Seq<int>>, i: int)
    requires
        0 <= i < y.len(),
    ensures
        spec_triples(y.take(i + 1)) == spec_triples(y.take(i)) + spec_row_triples(y[i], i),
{
    lemma_take_push(y, i);
    let s = y.take(i);
    assert(s.push(y[i]).drop_last() =~= s);
    assert(s.push(y[i]).last() == y[i]);
}

/// The triples of a bounded row index into the row and carry its values.
proof fn lemma_row_triples_wf(r: Seq<int>, i: int)
    requires
        forall|j: int| 0 <= j < r.len() ==> -(VAL_MAX as int) <= #[trigger] r[j] <= VAL_MAX as int,
    ensures
        spec_row_triples(r, i).len() <= r.len(),
        forall|m: int|
            0 <= m < spec_row_triples(r, i).len() ==> (#[trigger] spec_row_triples(r, i)[m]).0 == i
                && 0 <= spec_row_triples(r, i)[m].1 < r.len() && -(VAL_MAX as int)
                <= spec_row_triples(r, i)[m].2 <= VAL_MAX as int,
    decreases r.len(),
{
    if r.len() > 0 {
        let p = r.drop_last();
        assert(forall|j: int|
            0 <= j < p.len() ==> -(VAL_MAX as int) <= #[trigger] p[j] <= VAL_MAX as int) by {
            assert(forall|j: int| 0 <= j < p.len() ==> p[j] == r[j]);
        }
        lemma_row_triples_wf(p, i);
    }
}

/// The triples of a bounded rectangular matrix index into its shape, carry
/// bounded ratings, and number at most one per cell.
pub proof fn lemma_triples_wf(y: Seq<Seq<int>>, rows: int, cols: int)
    requires
        is_rect(y, rows, cols),
        cols >= 0,
        bounded(y, VAL_MAX as int),
    ensures
        triples_wf(spec_triples(y), rows, cols),
        spec_triples(y).len() <= rows * cols,
    decreases y.len(),
{
    if y.len() == 0 {
        assert(0 * cols == 0) by (nonlinear_arith);
    } else {
        let p = y.drop_last();
        assert(forall|i: int| 0 <= i < p.len() ==> (#[trigger] p[i]).len() == cols) by {
            assert(forall|i: int| 0 <= i < p.len() ==> p[i] == y[i]);
        }
        assert(forall|i: int, j: int|
            0 <= i < p.len() && 0 <= j < p[i].len() ==> -(VAL_MAX as int) <= #[trigger] p[i][j]
                <= VAL_MAX as int) by {
            assert(forall|i: int| 0 <= i < p.len() ==> p[i] == y[i]);
        }
        lemma_triples_wf(p, rows - 1, cols);
        let last = y.last();
        assert(forall|j: int|
            0 <= j < last.len() ==> -(VAL_MAX as int) <= #[trigger] last[j] <= VAL_MAX as int);
        lemma_row_triples_wf(last, y.len() - 1);
        let a = spec_triples(p);
        let b = spec_row_triples(last, y.len() - 1);
        assert(spec_triples(y) == a + b);
        assert forall|m: int|
            0 <= m < (a + b).len() implies 0 <= (#[trigger] (a + b)[m]).0 < rows && 0 <= (a
            + b)[m].1 < cols && -(VAL_MAX as int) <= (a + b)[m].2 <= VAL_MAX as int by {
            if m < a.len() {
                assert((a + b)[m] == a[m]);
                assert(0 <= a[m].0 < rows - 1 && 0 <= a[m].1 < cols);
            } else {
                assert((a + b)[m] == b[m - a.len()]);
            }
        }
        assert((rows - 1) * cols + cols == rows * cols) by (nonlinear_arith);
    }
}

/// The factor state in the middle of one stochastic epoch, with a flag that
/// records whether every update so far stayed in the representable range.
pub ghost struct EpochState {
    pub u: Seq<Seq<int>>,
    pub v: Seq<Seq<int>>,
    pub ok: bool,
}

/// Every entry of the row has magnitude at most `bound`.
pub open spec fn row_bounded(r: Seq<int>, bound: int) -> bool {
    forall|l: int| 0 <= l < r.len() ==> -bound <= #[trigger] r[l] <= bound
}

/// The fixed-point prediction for cell `(i, j)`: the dot product of the two
/// factor rows, brought back to scale.
pub open spec fn spec_sgd_pred(u: Seq<Seq<int>>, v: Seq<Seq<int>>, i: int, j: int) -> int {
    t_div(spec_dot(u[i], v[j]), SCALE as int)
}

/// The updated user row for one observed triple, computed from the factor
/// rows as they stood before either write.
pub open spec fn spec_upd_u_row(
    u: Seq<Seq<int>>,
    v: Seq<Seq<int>>,
    t: (int, int, int),
    alpha: int,
) -> Seq<int> {
    let e = t.2 - spec_sgd_pred(u, v, t.0, t.1);
    Seq::new(
        u[t.0].len(),
        |l: int| u[t.0][l] + t_div(alpha * e * v[t.1][l], (SCALE as int) * (SCALE as int)),
    )
}

/// The updated item row for one observed triple, computed from the factor
/// rows as they stood before either write.
pub open spec fn spec_upd_v_row(
    u: Seq<Seq<int>>,
    v: Seq<Seq<int>>,
    t: (int, int, int),
    alpha: int,
) -> Seq<int> {
    let e = t.2 - spec_sgd_pred(u, v, t.0, t.1);
    Seq::new(
        v[t.1].len(),
        |l: int| v[t.1][l] + t_div(alpha * e * u[t.0][l], (SCALE as int) * (SCALE as int)),
    )
}

/// The factor state after the first `n` triples of one epoch.  An update
/// that would leave the representable range freezes the state and clears the
/// flag.
pub open spec fn spec_epoch_prefix(
    u0: Seq<Seq<int>>,
    v0: Seq<Seq<int>>,
    ts: Seq<(int, int, int)>,
    n: int,
    alpha: int,
) -> EpochState
    decreases n,
{
    if n <= 0 {
        EpochState { u: u0, v: v0, ok: true }
    } else {
        let s = spec_epoch_prefix(u0, v0, ts, n - 1, alpha);
        if !s.ok {
            s
        } else {
            let t = ts[n - 1];
            let nur = spec_upd_u_row(s.u, s.v, t, alpha);
            let nvr = spec_upd_v_row(s.u, s.v, t, alpha);
            if !row_bounded(nur, VAL_MAX as int) || !row_bounded(nvr, VAL_MAX as int) {
                EpochState { u: s.u, v: s.v, ok: false }
            } else {
                EpochState { u: s.u.update(t.0, nur), v: s.v.update(t.1, nvr), ok: true }
            }
        }
    }
}

/// Once an epoch has overflowed, processing further triples changes nothing.
proof fn lemma_epoch_prefix_frozen(
    u0: Seq<Seq<int>>,
    v0: Seq<Seq<int>>,
    ts: Seq<(int, int, int)>,
    n: int,
    m: int,
    alpha: int,
)
    requires
        0 <= n <= m,
        !spec_epoch_prefix(u0, v0, ts, n, alpha).ok,
    ensures
        spec_epoch_prefix(u0, v0, ts, m, alpha) == spec_epoch_prefix(u0, v0, ts, n, alpha),
    decreases m - n,
{
    if m > n {
        lemma_epoch_prefix_frozen(u0, v0, ts, n, m - 1, alpha);
    }
}

/// The stochastic trainer's state machine, run to its terminal state:
/// starting from factors `u` and `v` with `epochs_left` epochs of budget
/// remaining and `epochs_done` already performed, the run ends converged,
/// exhausted, or overflowed, with the factors it ended on.
pub open spec fn spec_stoch_run(
    ts: Seq<(int, int, int)>,
    u: Seq<Seq<int>>,
    v: Seq<Seq<int>>,
    alpha: int,
    threshold: int,
    epochs_left: nat,
    epochs_done: int,
) -> RunState
    decreases epochs_left,
{
    if epochs_left == 0 {
        RunState { u, v, steps: epochs_done, status: RunStatus::Exhausted }
    } else {
        let ep = spec_epoch_prefix(u, v, ts, ts.len() as int, alpha);
        if !ep.ok {
            RunState { u: ep.u, v: ep.v, steps: epochs_done, status: RunStatus::Overflowed }
        } else {
            let est = spec_matmul_t(ep.u, ep.v);
            if !bounded(est, VAL_MAX as int) {
                RunState { u: ep.u, v: ep.v, steps: epochs_done + 1, status: RunStatus::Overflowed }
            } else {
                let q = spec_entry_sq_sum(ts, est);
                if q < threshold * (ts.len() * (SCALE as int)) {
                    RunState { u: ep.u, v: ep.v, steps: epochs_done + 1, status: RunStatus::Converged }
                } else {
                    spec_stoch_run(
                        ts,
                        ep.u,
                        ep.v,
                        alpha,
                        threshold,
                        (epochs_left - 1) as nat,
                        epochs_done + 1,
                    )
                }
            }
        }
    }
}

/// Convergence detection is sound: whenever a stochastic run ends converged,
/// the exact mean of squared errors of the factors it ended on is strictly
/// below the threshold.
pub proof fn lemma_stoch_converged_meets_threshold(
    ts: Seq<(int, int, int)>,
    u: Seq<Seq<int>>,
    v: Seq<Seq<int>>,
    alpha: int,
    threshold: int,
    epochs_left: nat,
    epochs_done: int,
)
    ensures
        ({
            let fin = spec_stoch_run(ts, u, v, alpha, threshold, epochs_left, epochs_done);
            fin.status == RunStatus::Converged ==> spec_entry_sq_sum(
                ts,
                spec_matmul_t(fin.u, fin.v),
            ) < threshold * (ts.len() * (SCALE as int))
        }),
    decreases epochs_left,
{
    if epochs_left > 0 {
        let ep = spec_epoch_prefix(u, v, ts, ts.len() as int, alpha);
        if ep.ok {
            let est = spec_matmul_t(ep.u, ep.v);
            if bounded(est, VAL_MAX as int) {
                let q = spec_entry_sq_sum(ts, est);
                if !(q < threshold * (ts.len() * (SCALE as int))) {
                    lemma_stoch_converged_meets_threshold(
                        ts,
                        ep.u,
                        ep.v,
                        alpha,
                        threshold,
                        (epochs_left - 1) as nat,
                        epochs_done + 1,
                    );
                }
            }
        }
    }
}

/// The observed `(row, column, rating)` triples of a rating matrix, in
/// row-major order, skipping the zero-valued unobserved cells.
pub fn ignore_null_ratings(y: &Matrix, rows: usize, cols: usize) -> (r: Vec<(usize, usize, i64)>)
    requires
        is_rect(mat_view(*y), rows as int, cols as int),
        rows <= DIM_MAX,
        cols <= DIM_MAX,
        bounded(mat_view(*y), VAL_MAX as int),
    ensures
        triples_view(r@) == spec_triples(mat_view(*y)),
        r@.len() == spec_triples(mat_view(*y)).len(),
{
    let ghost yv = mat_view(*y);
    let mut out: Vec<(usize, usize, i64)> = Vec::new();
    proof {
        assert(yv.take(0) =~= Seq::<Seq<int>>::empty());
        assert(triples_view(out@) =~= spec_triples(yv.take(0)));
    }
    for i in 0..rows
        invariant
            is_rect(yv, rows as int, cols as int),
            yv == mat_view(*y),
            rows <= DIM_MAX,
            cols <= DIM_MAX,
            bounded(yv, VAL_MAX as int),
            triples_view(out@) == spec_triples(yv.take(i as int)),
    {
        let ghost row = yv[i as int];
        proof {
            assert(row.take(0) =~= Seq::<int>::empty());
            assert(triples_view(out@) + spec_row_triples(row.take(0), i as int) =~= triples_view(
                out@,
            ));
        }
        let ghost done = spec_triples(yv.take(i as int));
        for j in 0..cols
            invariant
                is_rect(yv, rows as int, cols as int),
                yv == mat_view(*y),
                row == yv[i as int],
                done == spec_triples(yv.take(i as int)),
                0 <= i < rows,
                rows <= DIM_MAX,
                cols <= DIM_MAX,
                bounded(yv, VAL_MAX as int),
                triples_view(out@) == done + spec_row_triples(row.take(j as int), i as int),
        {
            proof {
                assert(row[j as int] == y@[i as int]@[j as int] as int);
                lemma_row_triples_take_step(row, i as int, j as int);
            }
            let val = y[i][j];
            if val != 0 {
                let ghost pre = out@;
                out.push((i, j, val));
                proof {
                    assert(triples_view(out@) =~= triples_view(pre).push(
                        (i as int, j as int, val as int),
                    ));
                    assert(done + spec_row_triples(row.take(j as int), i as int) + seq![
                        (i as int, j as int, val as int),
                    ] =~= (done + spec_row_triples(row.take(j as int), i as int)).push(
                        (i as int, j as int, val as int),
                    ));
                    assert(done + (spec_row_triples(row.take(j as int), i as int) + seq![
                        (i as int, j as int, val as int),
                    ]) =~= done + spec_row_triples(row.take(j as int), i as int) + seq![
                        (i as int, j as int, val as int),
                    ]);
                }
            } else {
                proof {
                    assert(spec_row_triples(row.take(j as int), i as int) + Seq::<
                        (int, int, int),
                    >::empty() =~= spec_row_triples(row.take(j as int), i as int));
                }
            }
        }
        proof {
            assert(row.take(cols as int) =~= row);
            lemma_triples_take_step(yv, i as int);
        }
    }
    proof {
        assert(yv.take(rows as int) =~= yv);
    }
    out
}

/// The stochastic gradient-descent trainer.
pub struct MF {
    pub config: Config,
    /// Accepted for interface compatibility; the optimizer never reads it.
    pub kappa: i64,
}

impl MF {
    /// A stochastic trainer with the classic defaults of this library:
    /// factors initialized to three, rounding post-processing.
    pub fn new(alpha: i64, max_steps: usize, k_latent: usize, threshold: i64, kappa: i64) -> (r:
        MF)
        requires
            0 < alpha <= VAL_MAX,
            max_steps >= 1,
            1 <= k_latent <= DIM_MAX,
            0 <= threshold <= VAL_MAX,
        ensures
            r.config == (Config {
                k_latent,
                alpha,
                max_steps,
                threshold,
                init_value: 3_000_000,
                post_process: PostProcessMode::Round,
                count_mode: CountMode::Observed,
            }),
            r.config.valid(),
            r.kappa == kappa,
    {
        MF {
            config: Config {
                k_latent,
                alpha,
                max_steps,
                threshold,
                init_value: 3_000_000,
                post_process: PostProcessMode::Round,
                count_mode: CountMode::Observed,
            },
            kappa,
        }
    }

    /// A stochastic trainer with a fully explicit configuration.
    pub fn from_config(config: Config) -> (r: MF)
        requires
            config.valid(),
        ensures
            r.config == config,
    {
        MF { config, kappa: 0 }
    }

    /// The terminal state this trainer's run reaches on the given ratings.
    pub open spec fn spec_run(self, y: Seq<Seq<int>>, rows: int, cols: int) -> RunState {
        spec_stoch_run(
            spec_triples(y),
            spec_filled(rows, self.config.k_latent as int, self.config.init_value as int),
            spec_filled(cols, self.config.k_latent as int, self.config.init_value as int),
            self.config.alpha as int,
            self.config.threshold as int,
            self.config.max_steps as nat,
            0,
        )
    }

    /// The epoch loop: extract the observed triples once, sweep them in list
    /// order each epoch, and stop when the mean of squared errors falls
    /// below the threshold or the epoch budget runs out.  Hands back the raw
    /// reconstruction, the exact truncated error, the epoch count, and
    /// whether the run converged.
    fn sgd(&self, y: &Matrix, rows: usize, cols: usize) -> (r: Result<
        (Matrix, i128, usize, bool),
        MfError,
    >)
        requires
            self.config.valid(),
            is_rect(mat_view(*y), rows as int, cols as int),
            rows <= DIM_MAX,
            cols <= DIM_MAX,
            bounded(mat_view(*y), VAL_MAX as int),
        ensures
            ({
                let yv = mat_view(*y);
                let ts = spec_triples(yv);
                let fin = self.spec_run(yv, rows as int, cols as int);
                match r {
                    Ok(t) => ts.len() > 0 && fin.status != RunStatus::Overflowed && mat_view(t.0)
                        == spec_matmul_t(fin.u, fin.v) && is_rect(
                        mat_view(t.0),
                        rows as int,
                        cols as int,
                    ) && bounded(mat_view(t.0), VAL_MAX as int) && t.1 == t_div(
                        spec_entry_sq_sum(ts, spec_matmul_t(fin.u, fin.v)),
                        ts.len() * (SCALE as int),
                    ) && t.2 == fin.steps && (t.3 <==> fin.status == RunStatus::Converged),
                    Err(e) => (e == MfError::EmptyDataset && ts.len() == 0) || (e
                        == MfError::NumericOverflow && ts.len() > 0 && fin.status
                        == RunStatus::Overflowed),
                }
            }),
    {
        let ghost yv = mat_view(*y);
        let cfg = self.config;
        let ratings = ignore_null_ratings(y, rows, cols);
        let ghost ts = spec_triples(yv);
        proof {
            lemma_triples_wf(yv, rows as int, cols as int);
            assert((rows as int) * (cols as int) <= 100_000_000) by (nonlinear_arith)
                requires
                    0 <= rows <= 10_000,
                    0 <= cols <= 10_000,
            ;
        }
        if ratings.len() == 0 {
            return Err(MfError::EmptyDataset);
        }
        let n = ratings.len();
        let mut u = filled(rows, cfg.k_latent, cfg.init_value);
        let mut v = filled(cols, cfg.k_latent, cfg.init_value);
        let mut epoch: usize = 0;
        let ghost fin = self.spec_run(yv, rows as int, cols as int);
        loop
            invariant
                self.config == cfg,
                cfg.valid(),
                yv == mat_view(*y),
                is_rect(yv, rows as int, cols as int),
                rows <= DIM_MAX,
                cols <= DIM_MAX,
                bounded(yv, VAL_MAX as int),
                ts == spec_triples(yv),
                triples_view(ratings@) == ts,
                n == ratings@.len(),
                1 <= n <= 100_000_000,
                ts.len() == n,
                triples_wf(ts, rows as int, cols as int),
                is_rect(mat_view(u), rows as int, cfg.k_latent as int),
                is_rect(mat_view(v), cols as int, cfg.k_latent as int),
                bounded(mat_view(u), VAL_MAX as int),
                bounded(mat_view(v), VAL_MAX as int),
                epoch < cfg.max_steps,
                fin == self.spec_run(yv, rows as int, cols as int),
                fin == spec_stoch_run(
                    ts,
                    mat_view(u),
                    mat_view(v),
                    cfg.alpha as int,
                    cfg.threshold as int,
                    (cfg.max_steps - epoch) as nat,
                    epoch as int,
                ),
            decreases cfg.max_steps - epoch,
        {
            let ghost u_start = mat_view(u);
            let ghost v_start = mat_view(v);
            for idx in 0..n
                invariant
                    self.config == cfg,
                    cfg.valid(),
                    yv == mat_view(*y),
                    is_rect(yv, rows as int, cols as int),
                    rows <= DIM_MAX,
                    cols <= DIM_MAX,
                    bounded(yv, VAL_MAX as int),
                    ts == spec_triples(yv),
                    triples_view(ratings@) == ts,
                    n == ratings@.len(),
                    1 <= n <= 100_000_000,
                    ts.len() == n,
                    triples_wf(ts, rows as int, cols as int),
                    is_rect(mat_view(u), rows as int, cfg.k_latent as int),
                    is_rect(mat_view(v), cols as int, cfg.k_latent as int),
                    bounded(mat_view(u), VAL_MAX as int),
                    bounded(mat_view(v), VAL_MAX as int),
                    epoch < cfg.max_steps,
                    fin == self.spec_run(yv, rows as int, cols as int),
                    fin == spec_stoch_run(
                        ts,
                        u_start,
                        v_start,
                        cfg.alpha as int,
                        cfg.threshold as int,
                        (cfg.max_steps - epoch) as nat,
                        epoch as int,
                    ),
                    spec_epoch_prefix(u_start, v_start, ts, idx as int, cfg.alpha as int)
                        == (EpochState { u: mat_view(u), v: mat_view(v), ok: true }),
            {
                let t_exec = ratings[idx];
                let ri = t_exec.0;
                let ci = t_exec.1;
                let rating = t_exec.2;
                let ghost t = ts[idx as int];
                let ghost uv_cur = mat_view(u);
                let ghost vv_cur = mat_view(v);
                proof {
                    assert(t == (ri as int, ci as int, rating as int));
                    assert(0 <= ri < rows && 0 <= ci < cols);
                    assert(-VAL_MAX <= rating <= VAL_MAX);
                    assert(row_view(u@[ri as int]) == uv_cur[ri as int]);
                    assert(row_view(v@[ci as int]) == vv_cur[ci as int]);
                    assert forall|l: int|
                        0 <= l < u@[ri as int]@.len() implies -2 * (VAL_MAX as int)
                        <= #[trigger] u@[ri as int]@[l] <= 2 * (VAL_MAX as int) by {
                        assert(u@[ri as int]@[l] as int == uv_cur[ri as int][l]);
                        assert(-(VAL_MAX as int) <= uv_cur[ri as int][l] <= VAL_MAX as int);
                    }
                    assert forall|l: int|
                        0 <= l < v@[ci as int]@.len() implies -2 * (VAL_MAX as int)
                        <= #[trigger] v@[ci as int]@[l] <= 2 * (VAL_MAX as int) by {
                        assert(v@[ci as int]@[l] as int == vv_cur[ci as int][l]);
                        assert(-(VAL_MAX as int) <= vv_cur[ci as int][l] <= VAL_MAX as int);
                    }
                }
                let pred_num = dot(&u[ri], &v[ci]);
                proof {
                    assert(forall|l: int|
                        0 <= l < uv_cur[ri as int].len() ==> -(VAL_MAX as int)
                            <= #[trigger] uv_cur[ri as int][l] <= VAL_MAX as int);
                    assert(forall|l: int|
                        0 <= l < vv_cur[ci as int].len() ==> -(VAL_MAX as int)
                            <= #[trigger] vv_cur[ci as int][l] <= VAL_MAX as int);
                    lemma_dot_bound(
                        uv_cur[ri as int],
                        vv_cur[ci as int],
                        VAL_MAX as int,
                        VAL_MAX as int,
                    );
                    assert((cfg.k_latent as int) * ((VAL_MAX as int) * (VAL_MAX as int))
                        <= 10_000_000_000_000_000_000_000) by (nonlinear_arith)
                        requires
                            0 <= cfg.k_latent <= 10_000,
                            VAL_MAX == 1_000_000_000,
                    ;
                    lemma_t_div_mag(pred_num as int, SCALE as int, 10_000_000_000_000_000_000_000);
                    assert(10_000_000_000_000_000int * 1_000_000int
                        == 10_000_000_000_000_000_000_000int) by (nonlinear_arith);
                    vstd::arithmetic::div_mod::lemma_div_by_multiple(
                        10_000_000_000_000_000,
                        1_000_000,
                    );
                }
                let pred = div_trunc(pred_num, SCALE as i128);
                let e: i128 = (rating as i128) - pred;
                let ghost nur_spec = spec_upd_u_row(uv_cur, vv_cur, t, cfg.alpha as int);
                let ghost nvr_spec = spec_upd_v_row(uv_cur, vv_cur, t, cfg.alpha as int);
                proof {
                    assert(e == t.2 - spec_sgd_pred(uv_cur, vv_cur, t.0, t.1));
                    assert(-10_000_001_000_000_000 <= e <= 10_000_001_000_000_000);
                    assert(nur_spec.len() == cfg.k_latent);
                    assert(nvr_spec.len() == cfg.k_latent);
                }
                let k = cfg.k_latent;
                let mut nur: Vec<i64> = Vec::new();
                proof {
                    assert(row_view(nur) =~= nur_spec.take(0));
                }
                for l in 0..k
                    invariant
                        cfg.valid(),
                        k == cfg.k_latent,
                        uv_cur == mat_view(u),
                        vv_cur == mat_view(v),
                        is_rect(uv_cur, rows as int, k as int),
                        is_rect(vv_cur, cols as int, k as int),
                        bounded(uv_cur, VAL_MAX as int),
                        bounded(vv_cur, VAL_MAX as int),
                        0 <= ri < rows,
                        0 <= ci < cols,
                        t == (ri as int, ci as int, rating as int),
                        e == t.2 - spec_sgd_pred(uv_cur, vv_cur, t.0, t.1),
                        -10_000_001_000_000_000 <= e <= 10_000_001_000_000_000,
                        self.config == cfg,
                        yv == mat_view(*y),
                        ts == spec_triples(yv),
                        0 <= idx < ts.len(),
                        epoch < cfg.max_steps,
                        fin == self.spec_run(yv, rows as int, cols as int),
                        fin == spec_stoch_run(
                            ts,
                            u_start,
                            v_start,
                            cfg.alpha as int,
                            cfg.threshold as int,
                            (cfg.max_steps - epoch) as nat,
                            epoch as int,
                        ),
                        spec_epoch_prefix(u_start, v_start, ts, idx as int, cfg.alpha as int)
                            == (EpochState { u: uv_cur, v: vv_cur, ok: true }),
                        t == ts[idx as int],
                        nur_spec == spec_upd_u_row(uv_cur, vv_cur, t, cfg.alpha as int),
                        nur_spec.len() == k,
                        nur@.len() == l,
                        row_view(nur) == nur_spec.take(l as int),
                        forall|ll: int|
                            0 <= ll < l ==> -(VAL_MAX as int) <= #[trigger] nur_spec[ll]
                                <= VAL_MAX as int,
                {
                    proof {
                        assert(vv_cur[ci as int][l as int] == v@[ci as int]@[l as int] as int);
                        assert(uv_cur[ri as int][l as int] == u@[ri as int]@[l as int] as int);
                        assert(-(VAL_MAX as int) <= vv_cur[ci as int][l as int] <= VAL_MAX as int);
                        assert(-(VAL_MAX as int) <= uv_cur[ri as int][l as int] <= VAL_MAX as int);
                        assert(-10_000_001_000_000_000_000_000_000int <= (cfg.alpha as int) * e
                            <= 10_000_001_000_000_000_000_000_000int) by (nonlinear_arith)
                            requires
                                0 < cfg.alpha <= 1_000_000_000,
                                -10_000_001_000_000_000 <= e <= 10_000_001_000_000_000,
                        ;
                    }
                    let ae: i128 = (cfg.alpha as i128) * e;
                    proof {
                        assert(-10_000_001_000_000_000_000_000_000_000_000_000int <= ae * (
                        vv_cur[ci as int][l as int]) <= 10_000_001_000_000_000_000_000_000_000_000_000int)
                            by (nonlinear_arith)
                            requires
                                -10_000_001_000_000_000_000_000_000int <= ae
                                    <= 10_000_001_000_000_000_000_000_000int,
                                -1_000_000_000 <= vv_cur[ci as int][l as int] <= 1_000_000_000,
                        ;
                    }
                    let num: i128 = ae * (v[ci][l] as i128);
                    proof {
                        crate::fixed::lemma_t_div_bounds(
                            num as int,
                            (SCALE as int) * (SCALE as int),
                        );
                    }
                    let delta = div_trunc(num, (SCALE as i128) * (SCALE as i128));
                    let cand: i128 = (u[ri][l] as i128) + delta;
                    proof {
                        assert(nur_spec[l as int] == uv_cur[ri as int][l as int] + t_div(
                            (cfg.alpha as int) * e * vv_cur[ci as int][l as int],
                            (SCALE as int) * (SCALE as int),
                        ));
                        assert(cand == nur_spec[l as int]);
                    }
                    if cand > VAL_MAX as i128 || cand < -(VAL_MAX as i128) {
                        proof {
                            assert(!row_bounded(nur_spec, VAL_MAX as int));
                            assert(spec_epoch_prefix(
                                u_start,
                                v_start,
                                ts,
                                idx as int + 1,
                                cfg.alpha as int,
                            ) == (EpochState { u: uv_cur, v: vv_cur, ok: false }));
                            lemma_epoch_prefix_frozen(
                                u_start,
                                v_start,
                                ts,
                                idx as int + 1,
                                ts.len() as int,
                                cfg.alpha as int,
                            );
                            assert(fin.status == RunStatus::Overflowed);
                        }
                        return Err(MfError::NumericOverflow);
                    }
                    let ghost pre = nur;
                    nur.push(cand as i64);
                    proof {
                        lemma_row_view_push(pre, nur, cand as i64);
                        lemma_take_push(nur_spec, l as int);
                    }
                }
                proof {
                    assert(nur_spec.take(k as int) =~= nur_spec);
                    assert(row_view(nur) == nur_spec);
                    assert(row_bounded(nur_spec, VAL_MAX as int));
                }
                let mut nvr: Vec<i64> = Vec::new();
                proof {
                    assert(row_view(nvr) =~= nvr_spec.take(0));
                }
                for l in 0..k
                    invariant
                        cfg.valid(),
                        k == cfg.k_latent,
                        uv_cur == mat_view(u),
                        vv_cur == mat_view(v),
                        is_rect(uv_cur, rows as int, k as int),
                        is_rect(vv_cur, cols as int, k as int),
                        bounded(uv_cur, VAL_MAX as int),
                        bounded(vv_cur, VAL_MAX as int),
                        0 <= ri < rows,
                        0 <= ci < cols,
                        t == (ri as int, ci as int, rating as int),
                        e == t.2 - spec_sgd_pred(uv_cur, vv_cur, t.0, t.1),
                        -10_000_001_000_000_000 <= e <= 10_000_001_000_000_000,
                        self.config == cfg,
                        yv == mat_view(*y),
                        ts == spec_triples(yv),
                        0 <= idx < ts.len(),
                        epoch < cfg.max_steps,
                        fin == self.spec_run(yv, rows as int, cols as int),
                        fin == spec_stoch_run(
                            ts,
                            u_start,
                            v_start,
                            cfg.alpha as int,
                            cfg.threshold as int,
                            (cfg.max_steps - epoch) as nat,
                            epoch as int,
                        ),
                        spec_epoch_prefix(u_start, v_start, ts, idx as int, cfg.alpha as int)
                            == (EpochState { u: uv_cur, v: vv_cur, ok: true }),
                        t == ts[idx as int],
                        nvr_spec == spec_upd_v_row(uv_cur, vv_cur, t, cfg.alpha as int),
                        nvr_spec.len() == k,
                        nvr@.len() == l,
                        row_view(nvr) == nvr_spec.take(l as int),
                        forall|ll: int|
                            0 <= ll < l ==> -(VAL_MAX as int) <= #[trigger] nvr_spec[ll]
                                <= VAL_MAX as int,
                {
                    proof {
                        assert(vv_cur[ci as int][l as int] == v@[ci as int]@[l as int] as int);
                        assert(uv_cur[ri as int][l as int] == u@[ri as int]@[l as int] as int);
                        assert(-(VAL_MAX as int) <= vv_cur[ci as int][l as int] <= VAL_MAX as int);
                        assert(-(VAL_MAX as int) <= uv_cur[ri as int][l as int] <= VAL_MAX as int);
                        assert(-10_000_001_000_000_000_000_000_000int <= (cfg.alpha as int) * e
                            <= 10_000_001_000_000_000_000_000_000int) by (nonlinear_arith)
                            requires
                                0 < cfg.alpha <= 1_000_000_000,
                                -10_000_001_000_000_000 <= e <= 10_000_001_000_000_000,
                        ;
                    }
                    let ae: i128 = (cfg.alpha as i128) * e;
                    proof {
                        assert(-10_000_001_000_000_000_000_000_000_000_000_000int <= ae * (
                        uv_cur[ri as int][l as int]) <= 10_000_001_000_000_000_000_000_000_000_000_000int)
                            by (nonlinear_arith)
                            requires
                                -10_000_001_000_000_000_000_000_000int <= ae
                                    <= 10_000_001_000_000_000_000_000_000int,
                                -1_000_000_000 <= uv_cur[ri as int][l as int] <= 1_000_000_000,
                        ;
                    }
                    let num: i128 = ae * (u[ri][l] as i128);
                    proof {
                        crate::fixed::lemma_t_div_bounds(
                            num as int,
                            (SCALE as int) * (SCALE as int),
                        );
                    }
                    let delta = div_trunc(num, (SCALE as i128) * (SCALE as i128));
                    let cand: i128 = (v[ci][l] as i128) + delta;
                    proof {
                        assert(nvr_spec[l as int] == vv_cur[ci as int][l as int] + t_div(
                            (cfg.alpha as int) * e * uv_cur[ri as int][l as int],
                            (SCALE as int) * (SCALE as int),
                        ));
                        assert(cand == nvr_spec[l as int]);
                    }
                    if cand > VAL_MAX as i128 || cand < -(VAL_MAX as i128) {
                        proof {
                            assert(!row_bounded(nvr_spec, VAL_MAX as int));
                            assert(spec_epoch_prefix(
                                u_start,
                                v_start,
                                ts,
                                idx as int + 1,
                                cfg.alpha as int,
                            ) == (EpochState { u: uv_cur, v: vv_cur, ok: false }));
                            lemma_epoch_prefix_frozen(
                                u_start,
                                v_start,
                                ts,
                                idx as int + 1,
                                ts.len() as int,
                                cfg.alpha as int,
                            );
                            assert(fin.status == RunStatus::Overflowed);
                        }
                        return Err(MfError::NumericOverflow);
                    }
                    let ghost pre = nvr;
                    nvr.push(cand as i64);
                    proof {
                        lemma_row_view_push(pre, nvr, cand as i64);
                        lemma_take_push(nvr_spec, l as int);
                    }
                }
                proof {
                    assert(nvr_spec.take(k as int) =~= nvr_spec);
                    assert(row_view(nvr) == nvr_spec);
                    assert(row_bounded(nvr_spec, VAL_MAX as int));
                }
                let ghost pre_u = u;
                u.set(ri, nur);
                let ghost pre_v = v;
                v.set(ci, nvr);
                proof {
                    lemma_mat_view_set(pre_u, u, ri as int, nur);
                    lemma_mat_view_set(pre_v, v, ci as int, nvr);
                    assert(mat_view(u) == uv_cur.update(ri as int, nur_spec));
                    assert(mat_view(v) == vv_cur.update(ci as int, nvr_spec));
                    assert(spec_epoch_prefix(u_start, v_start, ts, idx as int + 1, cfg.alpha as int)
                        == (EpochState { u: mat_view(u), v: mat_view(v), ok: true }));
                    assert(is_rect(mat_view(u), rows as int, k as int));
                    assert(is_rect(mat_view(v), cols as int, k as int));
                    assert forall|i2: int, j2: int|
                        0 <= i2 < mat_view(u).len() && 0 <= j2 < mat_view(u)[i2].len() implies -(
                    VAL_MAX as int) <= #[trigger] mat_view(u)[i2][j2] <= VAL_MAX as int by {
                        if i2 == ri as int {
                            assert(mat_view(u)[i2] == nur_spec);
                        } else {
                            assert(mat_view(u)[i2] == uv_cur[i2]);
                        }
                    }
                    assert forall|i2: int, j2: int|
                        0 <= i2 < mat_view(v).len() && 0 <= j2 < mat_view(v)[i2].len() implies -(
                    VAL_MAX as int) <= #[trigger] mat_view(v)[i2][j2] <= VAL_MAX as int by {
                        if i2 == ci as int {
                            assert(mat_view(v)[i2] == nvr_spec);
                        } else {
                            assert(mat_view(v)[i2] == vv_cur[i2]);
                        }
                    }
                }
            }
            let est_opt = matmul_t(&u, &v, rows, cols, cfg.k_latent);
            match est_opt {
                None => {
                    proof {
                        assert(spec_epoch_prefix(u_start, v_start, ts, ts.len() as int, cfg.alpha as int)
                            == (EpochState { u: mat_view(u), v: mat_view(v), ok: true }));
                        assert(fin.status == RunStatus::Overflowed);
                    }
                    return Err(MfError::NumericOverflow);
                },
                Some(est) => {
                    let q = entry_sq_sum(&ratings, &est, rows, cols);
                    proof {
                        assert(1 <= (n as int) * (SCALE as int) <= 100_000_000_000_000)
                            by (nonlinear_arith)
                            requires
                                1 <= n <= 100_000_000,
                                SCALE == 1_000_000,
                        ;
                        assert(0 <= (cfg.threshold as int) * ((n as int) * (SCALE as int))
                            <= 100_000_000_000_000_000_000_000) by (nonlinear_arith)
                            requires
                                0 <= cfg.threshold <= 1_000_000_000,
                                1 <= (n as int) * (SCALE as int) <= 100_000_000_000_000,
                        ;
                    }
                    let bound: i128 = (cfg.threshold as i128) * ((n as i128) * (SCALE as i128));
                    let conv = q < bound;
                    if conv || epoch + 1 == cfg.max_steps {
                        proof {
                            assert(spec_epoch_prefix(u_start, v_start, ts, ts.len() as int, cfg.alpha as int)
                                == (EpochState { u: mat_view(u), v: mat_view(v), ok: true }));
                            assert(fin == RunState {
                                u: mat_view(u),
                                v: mat_view(v),
                                steps: epoch as int + 1,
                                status: if conv {
                                    RunStatus::Converged
                                } else {
                                    RunStatus::Exhausted
                                },
                            });
                        }
                        let err = div_trunc(q, (n as i128) * (SCALE as i128));
                        return Ok((est, err, epoch + 1, conv));
                    }
                    proof {
                        assert(spec_epoch_prefix(u_start, v_start, ts, ts.len() as int, cfg.alpha as int)
                            == (EpochState { u: mat_view(u), v: mat_view(v), ok: true }));
                        assert(spec_stoch_run(
                            ts,
                            u_start,
                            v_start,
                            cfg.alpha as int,
                            cfg.threshold as int,
                            (cfg.max_steps - epoch) as nat,
                            epoch as int,
                        ) == spec_stoch_run(
                            ts,
                            mat_view(u),
                            mat_view(v),
                            cfg.alpha as int,
                            cfg.threshold as int,
                            (cfg.max_steps - (epoch + 1)) as nat,
                            epoch as int + 1,
                        ));
                    }
                    epoch = epoch + 1;
                },
            }
        }
    }

    /// Train on the given rating matrix: run the epoch loop and map the
    /// final reconstruction onto the rating scale with the configured
    /// post-processing strategy.
    ///
    /// The prediction matrix always has the shape of the input matrix.  A
    /// matrix with no observed entries is rejected as degenerate, and a run
    /// whose factors or predictions leave the representable range reports a
    /// numeric overflow.
    pub fn train(&self, y: &Matrix, rows: usize, cols: usize) -> (r: Result<TrainResult, MfError>)
        requires
            self.config.valid(),
            is_rect(mat_view(*y), rows as int, cols as int),
            rows <= DIM_MAX,
            cols <= DIM_MAX,
            bounded(mat_view(*y), VAL_MAX as int),
        ensures
            ({
                let yv = mat_view(*y);
                let ts = spec_triples(yv);
                let fin = self.spec_run(yv, rows as int, cols as int);
                match r {
                    Ok(t) => ts.len() > 0 && fin.status != RunStatus::Overflowed && mat_view(
                        t.prediction,
                    ) == spec_post(spec_matmul_t(fin.u, fin.v), self.config.post_process)
                        && is_rect(mat_view(t.prediction), rows as int, cols as int) && t.error
                        == t_div(
                        spec_entry_sq_sum(ts, spec_matmul_t(fin.u, fin.v)),
                        ts.len() * (SCALE as int),
                    ) && t.iterations == fin.steps && (t.converged <==> fin.status
                        == RunStatus::Converged),
                    Err(e) => (e == MfError::EmptyDataset && ts.len() == 0) || (e
                        == MfError::NumericOverflow && ts.len() > 0 && fin.status
                        == RunStatus::Overflowed),
                }
            }),
    {
        let out = self.sgd(y, rows, cols);
        match out {
            Ok(t) => {
                let (est, err, steps, conv) = t;
                let pred = post_process(&est, rows, cols, self.config.post_process);
                Ok(TrainResult { prediction: pred, error: err, iterations: steps, converged: conv })
            },
            Err(e) => Err(e),
        }
    }
}

} // verus!
