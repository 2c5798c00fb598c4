//! Post-processing of raw predictions onto the rating scale.
//!
//! The reconstruction `U * V^T` produces arbitrary fixed-point values; before
//! they are reported as ratings they are mapped back onto the bounded rating
//! scale by one of three pluggable strategies: rounding to the nearest whole
//! rating, bucketing into discrete rating levels, or clipping values above
//! the maximum rating.  Each strategy is a pure, total, idempotent function.

use vstd::prelude::*;
use crate::fixed::{SCALE, HALF_SCALE, VAL_MAX, DIM_MAX};
use crate::matrix::{
    Matrix, mat_view, row_view, is_rect, bounded, lemma_take_push, lemma_row_view_push,
    lemma_mat_view_push,
};

verus! {

/// The three supported mappings from raw predictions to ratings.
#[derive(Clone, Copy, Debug, PartialEq, Eq, Structural)]
pub enum PostProcessMode {
    /// Round each cell to the nearest whole rating, halves away from zero.
    Round,
    /// Bucket each cell into the discrete levels one to five: above four and
    /// a half maps to five, above three and a half to four, and so on; at or
    /// below one and a half maps to one.
    Bucket,
    /// Clip values above the maximum rating of five down to five.
    Clip,
}

/// Rounding to the nearest multiple of `SCALE`, halves away from zero.
pub open spec fn spec_round_value(q: int) -> int {
    if q >= 0 {
        ((q + HALF_SCALE) / (SCALE as int)) * SCALE
    } else {
        -(((-q + HALF_SCALE) / (SCALE as int)) * SCALE)
    }
}

/// The bucketing ladder of the rating scale.
pub open spec fn spec_bucket_value(q: int) -> int {
    if q > 4 * SCALE + HALF_SCALE {
        5 * SCALE
    } else if q > 3 * SCALE + HALF_SCALE {
        4 * SCALE
    } else if q > 2 * SCALE + HALF_SCALE {
        3 * SCALE
    } else if q > SCALE + HALF_SCALE {
        2 * SCALE
    } else {
        SCALE as int
    }
}

/// Clipping at the maximum rating.
pub open spec fn spec_clip_value(q: int) -> int {
    if q > 5 * SCALE {
        5 * SCALE
    } else {
        q
    }
}

/// The selected strategy applied to one cell.
pub open spec fn spec_post_value(q: int, mode: PostProcessMode) -> int {
    match mode {
        PostProcessMode::Round => spec_round_value(q),
        PostProcessMode::Bucket => spec_bucket_value(q),
        PostProcessMode::Clip => spec_clip_value(q),
    }
}

/// The selected strategy applied to every cell of a matrix.
pub open spec fn spec_post(m: Seq<Seq<int>>, mode: PostProcessMode) -> Seq<Seq<int>> {
    Seq::new(m.len(), |i: int| Seq::new(m[i].len(), |j: int| spec_post_value(m[i][j], mode)))
}

/// Rounding lands on a multiple of `SCALE` and does not increase magnitude by
/// more than half a unit; within the representable range it stays there.
proof fn lemma_round_value_range(q: int)
    requires
        -VAL_MAX <= q <= VAL_MAX,
    ensures
        -VAL_MAX <= spec_round_value(q) <= VAL_MAX,
{
    if q >= 0 {
        vstd::arithmetic::div_mod::lemma_div_is_ordered(
            q + HALF_SCALE,
            VAL_MAX + HALF_SCALE,
            SCALE as int,
        );
        assert((VAL_MAX + HALF_SCALE) / (SCALE as int) == 1000);
        vstd::arithmetic::div_mod::lemma_div_pos_is_pos(q + HALF_SCALE, SCALE as int);
        assert(((q + HALF_SCALE) / (SCALE as int)) * SCALE <= 1000 * SCALE) by (nonlinear_arith)
            requires
                0 <= (q + HALF_SCALE) / (SCALE as int) <= 1000,
                SCALE == 1_000_000,
        ;
        assert(((q + HALF_SCALE) / (SCALE as int)) * SCALE >= 0) by (nonlinear_arith)
            requires
                0 <= (q + HALF_SCALE) / (SCALE as int),
                SCALE == 1_000_000,
        ;
    } else {
        vstd::arithmetic::div_mod::lemma_div_is_ordered(
            -q + HALF_SCALE,
            VAL_MAX + HALF_SCALE,
            SCALE as int,
        );
        assert((VAL_MAX + HALF_SCALE) / (SCALE as int) == 1000);
        vstd::arithmetic::div_mod::lemma_div_pos_is_pos(-q + HALF_SCALE, SCALE as int);
        assert(((-q + HALF_SCALE) / (SCALE as int)) * SCALE <= 1000 * SCALE) by (nonlinear_arith)
            requires
                0 <= (-q + HALF_SCALE) / (SCALE as int) <= 1000,
                SCALE == 1_000_000,
        ;
        assert(((-q + HALF_SCALE) / (SCALE as int)) * SCALE >= 0) by (nonlinear_arith)
            requires
                0 <= (-q + HALF_SCALE) / (SCALE as int),
                SCALE == 1_000_000,
        ;
    }
}

/// Rounding a value that is already a whole rating leaves it unchanged.
proof fn lemma_round_value_fixed(k: int)
    ensures
        spec_round_value(k * SCALE) == k * SCALE,
{
    if k >= 0 {
        assert(k * SCALE >= 0) by (nonlinear_arith)
            requires
                k >= 0,
                SCALE == 1_000_000,
        ;
        vstd::arithmetic::div_mod::lemma_hoist_over_denominator(
            HALF_SCALE as int,
            k,
            SCALE as nat,
        );
        assert((HALF_SCALE as int) / (SCALE as int) == 0);
        assert(spec_round_value(k * SCALE) == ((k * SCALE + HALF_SCALE) / (SCALE as int)) * SCALE);
        assert(k * SCALE + HALF_SCALE == HALF_SCALE + k * SCALE);
        assert((HALF_SCALE + k * SCALE) / (SCALE as int) == k);
    } else {
        assert(k * SCALE < 0) by (nonlinear_arith)
            requires
                k < 0,
                SCALE == 1_000_000,
        ;
        vstd::arithmetic::div_mod::lemma_hoist_over_denominator(
            HALF_SCALE as int,
            -k,
            SCALE as nat,
        );
        assert((HALF_SCALE as int) / (SCALE as int) == 0);
        assert(-(k * SCALE) == (-k) * SCALE) by (nonlinear_arith);
        assert((HALF_SCALE + (-k) * SCALE) / (SCALE as int) == -k);
        assert(spec_round_value(k * SCALE) == -(((-k) * SCALE + HALF_SCALE) / (SCALE as int))
            * SCALE);
    }
}

/// Each strategy is idempotent on a single cell.
pub proof fn lemma_post_value_idempotent(q: int, mode: PostProcessMode)
    ensures
        spec_post_value(spec_post_value(q, mode), mode) == spec_post_value(q, mode),
{
    match mode {
        PostProcessMode::Round => {
            if q >= 0 {
                let k = (q + HALF_SCALE) / (SCALE as int);
                vstd::arithmetic::div_mod::lemma_div_pos_is_pos(q + HALF_SCALE, SCALE as int);
                lemma_round_value_fixed(k);
            } else {
                let k = (-q + HALF_SCALE) / (SCALE as int);
                vstd::arithmetic::div_mod::lemma_div_pos_is_pos(-q + HALF_SCALE, SCALE as int);
                lemma_round_value_fixed(-k);
                assert(-(k * SCALE) == (-k) * SCALE) by (nonlinear_arith);
            }
        },
        PostProcessMode::Bucket => {
        },
        PostProcessMode::Clip => {
        },
    }
}

/// Each strategy is idempotent on whole matrices: running the post-processor
/// twice yields the same matrix as running it once.
pub proof fn lemma_post_idempotent(m: Seq<Seq<int>>, mode: PostProcessMode)
    ensures
        spec_post(spec_post(m, mode), mode) == spec_post(m, mode),
{
    let once = spec_post(m, mode);
    let twice = spec_post(once, mode);
    assert forall|i: int| 0 <= i < m.len() implies #[trigger] twice[i] =~= once[i] by {
        assert forall|j: int| 0 <= j < m[i].len() implies #[trigger] twice[i][j] == once[i][j] by {
            lemma_post_value_idempotent(m[i][j], mode);
        }
    }
    assert(twice =~~= once);
}

/// One cell mapped onto the rating scale by the selected strategy.
pub fn post_value(q: i64, mode: PostProcessMode) -> (r: i64)
    requires
        -VAL_MAX <= q <= VAL_MAX,
    ensures
        r as int == spec_post_value(q as int, mode),
        -VAL_MAX <= r <= VAL_MAX,
{
    match mode {
        PostProcessMode::Round => {
            proof {
                lemma_round_value_range(q as int);
            }
            if q >= 0 {
                let p: u64 = (q + HALF_SCALE) as u64;
                let k: u64 = p / (SCALE as u64);
                proof {
                    vstd::arithmetic::div_mod::lemma_div_is_ordered(
                        q + HALF_SCALE,
                        VAL_MAX + HALF_SCALE,
                        SCALE as int,
                    );
                    assert((VAL_MAX + HALF_SCALE) / (SCALE as int) == 1000);
                    vstd::arithmetic::div_mod::lemma_div_pos_is_pos(q + HALF_SCALE, SCALE as int);
                }
                (k * (SCALE as u64)) as i64
            } else {
                let p: u64 = (HALF_SCALE - q) as u64;
                let k: u64 = p / (SCALE as u64);
                proof {
                    vstd::arithmetic::div_mod::lemma_div_is_ordered(
                        -q + HALF_SCALE,
                        VAL_MAX + HALF_SCALE,
                        SCALE as int,
                    );
                    assert((VAL_MAX + HALF_SCALE) / (SCALE as int) == 1000);
                    vstd::arithmetic::div_mod::lemma_div_pos_is_pos(-q + HALF_SCALE, SCALE as int);
                }
                -((k * (SCALE as u64)) as i64)
            }
        },
        PostProcessMode::Bucket => {
            if q > 4 * SCALE + HALF_SCALE {
                5 * SCALE
            } else if q > 3 * SCALE + HALF_SCALE {
                4 * SCALE
            } else if q > 2 * SCALE + HALF_SCALE {
                3 * SCALE
            } else if q > SCALE + HALF_SCALE {
                2 * SCALE
            } else {
                SCALE
            }
        },
        PostProcessMode::Clip => {
            if q > 5 * SCALE {
                5 * SCALE
            } else {
                q
            }
        },
    }
}

/// The selected strategy applied to every cell of a matrix.
pub fn post_process(y: &Matrix, rows: usize, cols: usize, mode: PostProcessMode) -> (r: Matrix)
    requires
        is_rect(mat_view(*y), rows as int, cols as int),
        rows <= DIM_MAX,
        cols <= DIM_MAX,
        bounded(mat_view(*y), VAL_MAX as int),
    ensures
        mat_view(r) == spec_post(mat_view(*y), mode),
        is_rect(mat_view(r), rows as int, cols as int),
        bounded(mat_view(r), VAL_MAX as int),
{
    let ghost yv = mat_view(*y);
    let ghost target = spec_post(yv, mode);
    let mut out: Matrix = Vec::new();
    proof {
        assert(mat_view(out) =~= target.take(0));
    }
    for i in 0..rows
        invariant
            is_rect(yv, rows as int, cols as int),
            yv == mat_view(*y),
            target == spec_post(yv, mode),
            rows <= DIM_MAX,
            cols <= DIM_MAX,
            bounded(yv, VAL_MAX as int),
            out@.len() == i,
            mat_view(out) == target.take(i as int),
            forall|ii: int, jj: int|
                0 <= ii < i && 0 <= jj < cols ==> -(VAL_MAX as int) <= #[trigger] target[ii][jj]
                    <= VAL_MAX as int,
    {
        let mut row: Vec<i64> = Vec::new();
        let ghost target_row = target[i as int];
        proof {
            assert(row_view(row) =~= target_row.take(0));
        }
        for j in 0..cols
            invariant
                is_rect(yv, rows as int, cols as int),
                yv == mat_view(*y),
                target == spec_post(yv, mode),
                target_row == target[i as int],
                0 <= i < rows,
                rows <= DIM_MAX,
                cols <= DIM_MAX,
                bounded(yv, VAL_MAX as int),
                row@.len() == j,
                row_view(row) == target_row.take(j as int),
                forall|jj: int|
                    0 <= jj < j ==> -(VAL_MAX as int) <= #[trigger] target_row[jj]
                        <= VAL_MAX as int,
        {
            proof {
                assert(yv[i as int][j as int] == y@[i as int]@[j as int] as int);
                assert(-(VAL_MAX as int) <= yv[i as int][j as int] <= VAL_MAX as int);
            }
            let e = post_value(y[i][j], mode);
            let ghost pre = row;
            row.push(e);
            proof {
                assert(target_row[j as int] == spec_post_value(yv[i as int][j as int], mode));
                lemma_row_view_push(pre, row, e);
                lemma_take_push(target_row, j as int);
            }
        }
        let ghost pre_out = out;
        proof {
            assert(target_row.take(cols as int) =~= target_row);
        }
        out.push(row);
        proof {
            lemma_mat_view_push(pre_out, out, row);
            lemma_take_push(target, i as int);
        }
    }
    proof {
        assert(target.take(rows as int) =~= target);
        assert(is_rect(target, rows as int, cols as int));
        assert(bounded(target, VAL_MAX as int));
    }
    out
}

/// Every cell rounded to the nearest whole rating.
pub fn round_all(y: &Matrix, rows: usize, cols: usize) -> (r: Matrix)
    requires
        is_rect(mat_view(*y), rows as int, cols as int),
        rows <= DIM_MAX,
        cols <= DIM_MAX,
        bounded(mat_view(*y), VAL_MAX as int),
    ensures
        mat_view(r) == spec_post(mat_view(*y), PostProcessMode::Round),
        is_rect(mat_view(r), rows as int, cols as int),
        bounded(mat_view(r), VAL_MAX as int),
{
    post_process(y, rows, cols, PostProcessMode::Round)
}

/// Every cell bucketed into a discrete rating level.
pub fn normalize(y: &Matrix, rows: usize, cols: usize) -> (r: Matrix)
    requires
        is_rect(mat_view(*y), rows as int, cols as int),
        rows <= DIM_MAX,
        cols <= DIM_MAX,
        bounded(mat_view(*y), VAL_MAX as int),
    ensures
        mat_view(r) == spec_post(mat_view(*y), PostProcessMode::Bucket),
        is_rect(mat_view(r), rows as int, cols as int),
        bounded(mat_view(r), VAL_MAX as int),
{
    post_process(y, rows, cols, PostProcessMode::Bucket)
}

} // verus!
