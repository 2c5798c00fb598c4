//! Dense matrices of fixed-point values and their mathematical model.
//!
//! A matrix is a row-major `Vec<Vec<i64>>`; its model is a sequence of rows
//! of unbounded integers, so contracts can speak of products and sums without
//! overflow caveats.  Executable arithmetic runs in `i128`, and the dimension
//! and magnitude limits [`DIM_MAX`] and [`VAL_MAX`] keep every intermediate
//! value representable.

use vstd::prelude::*;
use crate::fixed::{SCALE, VAL_MAX, DIM_MAX, t_div, div_trunc, lemma_mul_bounds};

verus! {

/// A dense, row-major matrix of fixed-point values.
pub type Matrix = Vec<Vec<i64>>;

/// The mathematical content of one row.
pub open spec fn row_view(r: Vec<i64>) -> Seq<int> {
    Seq::new(r@.len(), |j: int| r@[j] as int)
}

/// The mathematical content of a matrix: a sequence of rows of integers.
pub open spec fn mat_view(m: Matrix) -> Seq<Seq<int>> {
    Seq::new(m@.len(), |i: int| row_view(m@[i]))
}

/// The matrix has exactly `rows` rows, each of length `cols`.
pub open spec fn is_rect(m: Seq<Seq<int>>, rows: int, cols: int) -> bool {
    m.len() == rows && forall|i: int| 0 <= i < m.len() ==> (#[trigger] m[i]).len() == cols
}

/// Every entry has magnitude at most `bound`.
pub open spec fn bounded(m: Seq<Seq<int>>, bound: int) -> bool {
    forall|i: int, j: int|
        0 <= i < m.len() && 0 <= j < m[i].len() ==> -bound <= #[trigger] m[i][j] <= bound
}

/// Dot product of two rows of equal length.
pub open spec fn spec_dot(a: Seq<int>, b: Seq<int>) -> int
    decreases a.len(),
{
    if a.len() == 0 {
        0
    } else {
        spec_dot(a.drop_last(), b.drop_last()) + a.last() * b.last()
    }
}

/// Column `j` of a matrix.
pub open spec fn col(m: Seq<Seq<int>>, j: int) -> Seq<int> {
    Seq::new(m.len(), |i: int| m[i][j])
}

/// The product `U * V^T` in fixed point: entry `(i, j)` is the dot product of
/// row `i` of `U` with row `j` of `V`, brought back to scale.
pub open spec fn spec_matmul_t(u: Seq<Seq<int>>, v: Seq<Seq<int>>) -> Seq<Seq<int>> {
    Seq::new(u.len(), |i: int| Seq::new(v.len(), |j: int| t_div(spec_dot(u[i], v[j]), SCALE as int)))
}

/// Sum of the entries of one row.
pub open spec fn spec_row_sum(r: Seq<int>) -> int
    decreases r.len(),
{
    if r.len() == 0 {
        0
    } else {
        spec_row_sum(r.drop_last()) + r.last()
    }
}

/// Sum of all entries of a matrix.
pub open spec fn spec_mat_sum(m: Seq<Seq<int>>) -> int
    decreases m.len(),
{
    if m.len() == 0 {
        0
    } else {
        spec_mat_sum(m.drop_last()) + spec_row_sum(m.last())
    }
}

/// Sum of the squares of the entries of one row.
pub open spec fn spec_row_sq_sum(r: Seq<int>) -> int
    decreases r.len(),
{
    if r.len() == 0 {
        0
    } else {
        spec_row_sq_sum(r.drop_last()) + r.last() * r.last()
    }
}

/// Sum of the squares of all entries of a matrix.
pub open spec fn spec_sq_sum(m: Seq<Seq<int>>) -> int
    decreases m.len(),
{
    if m.len() == 0 {
        0
    } else {
        spec_sq_sum(m.drop_last()) + spec_row_sq_sum(m.last())
    }
}

/// The constant matrix with the given shape and fill value.
pub open spec fn spec_filled(rows: int, cols: int, value: int) -> Seq<Seq<int>> {
    Seq::new(rows as nat, |i: int| Seq::new(cols as nat, |j: int| value))
}

/// Taking one more element appends exactly the element at the old boundary.
pub proof fn lemma_take_push<A>(s: Seq<A>, j: int)
    requires
        0 <= j < s.len(),
    ensures
        s.take(j + 1) == s.take(j).push(s[j]),
{
    assert(s.take(j + 1) =~= s.take(j).push(s[j]));
}

/// Pushing onto a row appends its value to the row's model.
pub proof fn lemma_row_view_push(pre: Vec<i64>, post: Vec<i64>, x: i64)
    requires
        post@ == pre@.push(x),
    ensures
        row_view(post) == row_view(pre).push(x as int),
{
    assert(row_view(post) =~= row_view(pre).push(x as int));
}

/// Pushing a row onto a matrix appends the row's model to the matrix model.
pub proof fn lemma_mat_view_push(pre: Matrix, post: Matrix, row: Vec<i64>)
    requires
        post@ == pre@.push(row),
    ensures
        mat_view(post) == mat_view(pre).push(row_view(row)),
{
    assert(mat_view(post) =~= mat_view(pre).push(row_view(row)));
}

/// Replacing one row of a matrix replaces that row of the matrix model.
pub proof fn lemma_mat_view_set(pre: Matrix, post: Matrix, i: int, row: Vec<i64>)
    requires
        0 <= i < pre@.len(),
        post@ == pre@.update(i, row),
    ensures
        mat_view(post) == mat_view(pre).update(i, row_view(row)),
{
    assert(mat_view(post) =~= mat_view(pre).update(i, row_view(row)));
}

/// Extending both operands of a dot product adds one product term.
pub proof fn lemma_dot_push(a: Seq<int>, b: Seq<int>, x: int, y: int)
    ensures
        spec_dot(a.push(x), b.push(y)) == spec_dot(a, b) + x * y,
{
    assert(a.push(x).drop_last() =~= a);
    assert(b.push(y).drop_last() =~= b);
}

/// Extending a row adds its new value to the row sum.
pub proof fn lemma_row_sum_push(s: Seq<int>, x: int)
    ensures
        spec_row_sum(s.push(x)) == spec_row_sum(s) + x,
{
    assert(s.push(x).drop_last() =~= s);
}

/// Extending a matrix adds the new row's sum to the matrix sum.
pub proof fn lemma_mat_sum_push(m: Seq<Seq<int>>, r: Seq<int>)
    ensures
        spec_mat_sum(m.push(r)) == spec_mat_sum(m) + spec_row_sum(r),
{
    assert(m.push(r).drop_last() =~= m);
}

/// Extending a row adds its new value's square to the row's square sum.
pub proof fn lemma_row_sq_sum_push(s: Seq<int>, x: int)
    ensures
        spec_row_sq_sum(s.push(x)) == spec_row_sq_sum(s) + x * x,
{
    assert(s.push(x).drop_last() =~= s);
}

/// Extending a matrix adds the new row's square sum to the matrix square sum.
pub proof fn lemma_sq_sum_push(m: Seq<Seq<int>>, r: Seq<int>)
    ensures
        spec_sq_sum(m.push(r)) == spec_sq_sum(m) + spec_row_sq_sum(r),
{
    assert(m.push(r).drop_last() =~= m);
}

/// A dot product of bounded rows is bounded by `len * (bound_a * bound_b)`.
pub proof fn lemma_dot_bound(a: Seq<int>, b: Seq<int>, bound_a: int, bound_b: int)
    requires
        a.len() == b.len(),
        bound_a >= 0,
        bound_b >= 0,
        forall|i: int| 0 <= i < a.len() ==> -bound_a <= #[trigger] a[i] <= bound_a,
        forall|i: int| 0 <= i < b.len() ==> -bound_b <= #[trigger] b[i] <= bound_b,
    ensures
        -(a.len() * (bound_a * bound_b)) <= spec_dot(a, b) <= a.len() * (bound_a * bound_b),
    decreases a.len(),
{
    if a.len() == 0 {
    } else {
        lemma_dot_bound(a.drop_last(), b.drop_last(), bound_a, bound_b);
        lemma_mul_bounds(a.last(), b.last(), bound_a, bound_b);
        assert((a.len() - 1) * (bound_a * bound_b) + bound_a * bound_b == a.len() * (bound_a
            * bound_b)) by (nonlinear_arith);
    }
}

/// A sum over a bounded row is bounded by `len * bound`.
pub proof fn lemma_row_sum_bound(r: Seq<int>, bound: int)
    requires
        bound >= 0,
        forall|i: int| 0 <= i < r.len() ==> -bound <= #[trigger] r[i] <= bound,
    ensures
        -(r.len() * bound) <= spec_row_sum(r) <= r.len() * bound,
    decreases r.len(),
{
    if r.len() == 0 {
    } else {
        lemma_row_sum_bound(r.drop_last(), bound);
        assert((r.len() - 1) * bound + bound == r.len() * bound) by (nonlinear_arith);
    }
}

/// A sum over a bounded rectangular matrix is bounded by `rows * (cols * bound)`.
pub proof fn lemma_mat_sum_bound(m: Seq<Seq<int>>, cols: int, bound: int)
    requires
        bound >= 0,
        cols >= 0,
        forall|i: int| 0 <= i < m.len() ==> (#[trigger] m[i]).len() == cols,
        bounded(m, bound),
    ensures
        -(m.len() * (cols * bound)) <= spec_mat_sum(m) <= m.len() * (cols * bound),
    decreases m.len(),
{
    if m.len() == 0 {
    } else {
        let prefix = m.drop_last();
        assert(forall|i: int, j: int|
            0 <= i < prefix.len() && 0 <= j < prefix[i].len() ==> -bound <= #[trigger] prefix[i][j]
                <= bound) by {
            assert(forall|i: int| 0 <= i < prefix.len() ==> prefix[i] == m[i]);
        }
        lemma_mat_sum_bound(prefix, cols, bound);
        lemma_row_sum_bound(m.last(), bound);
        assert((m.len() - 1) * (cols * bound) + cols * bound == m.len() * (cols * bound))
            by (nonlinear_arith);
    }
}

/// A sum of squares over a bounded row lies between `0` and `len * (bound * bound)`.
pub proof fn lemma_row_sq_sum_bound(r: Seq<int>, bound: int)
    requires
        bound >= 0,
        forall|i: int| 0 <= i < r.len() ==> -bound <= #[trigger] r[i] <= bound,
    ensures
        0 <= spec_row_sq_sum(r) <= r.len() * (bound * bound),
    decreases r.len(),
{
    if r.len() == 0 {
    } else {
        lemma_row_sq_sum_bound(r.drop_last(), bound);
        lemma_mul_bounds(r.last(), r.last(), bound, bound);
        assert(r.last() * r.last() >= 0) by (nonlinear_arith);
        assert((r.len() - 1) * (bound * bound) + bound * bound == r.len() * (bound * bound))
            by (nonlinear_arith);
    }
}

/// A sum of squares over a bounded rectangular matrix lies between `0` and
/// `rows * (cols * (bound * bound))`.
pub proof fn lemma_sq_sum_bound(m: Seq<Seq<int>>, cols: int, bound: int)
    requires
        bound >= 0,
        cols >= 0,
        forall|i: int| 0 <= i < m.len() ==> (#[trigger] m[i]).len() == cols,
        bounded(m, bound),
    ensures
        0 <= spec_sq_sum(m) <= m.len() * (cols * (bound * bound)),
    decreases m.len(),
{
    if m.len() == 0 {
    } else {
        let prefix = m.drop_last();
        assert(forall|i: int, j: int|
            0 <= i < prefix.len() && 0 <= j < prefix[i].len() ==> -bound <= #[trigger] prefix[i][j]
                <= bound) by {
            assert(forall|i: int| 0 <= i < prefix.len() ==> prefix[i] == m[i]);
        }
        lemma_sq_sum_bound(prefix, cols, bound);
        lemma_row_sq_sum_bound(m.last(), bound);
        assert((m.len() - 1) * (cols * (bound * bound)) + cols * (bound * bound) == m.len() * (cols
            * (bound * bound))) by (nonlinear_arith);
    }
}

/// Dot product of two rows, exact in `i128`.  The entry bound of twice
/// `VAL_MAX` admits both factor rows and masked-difference rows.
pub fn dot(a: &Vec<i64>, b: &Vec<i64>) -> (r: i128)
    requires
        a@.len() == b@.len(),
        a@.len() <= DIM_MAX,
        forall|i: int|
            0 <= i < a@.len() ==> -2 * (VAL_MAX as int) <= #[trigger] a@[i] <= 2 * (VAL_MAX as int),
        forall|i: int|
            0 <= i < b@.len() ==> -2 * (VAL_MAX as int) <= #[trigger] b@[i] <= 2 * (VAL_MAX as int),
    ensures
        r == spec_dot(row_view(*a), row_view(*b)),
{
    let ghost av = row_view(*a);
    let ghost bv = row_view(*b);
    let ghost bnd: int = 2 * (VAL_MAX as int);
    proof {
        assert(forall|i: int| 0 <= i < av.len() ==> -bnd <= #[trigger] av[i] <= bnd);
        assert(forall|i: int| 0 <= i < bv.len() ==> -bnd <= #[trigger] bv[i] <= bnd);
    }
    let mut acc: i128 = 0;
    let n = a.len();
    proof {
        assert(av.take(0) =~= Seq::<int>::empty());
        assert(bv.take(0) =~= Seq::<int>::empty());
    }
    for idx in 0..n
        invariant
            n == a@.len(),
            a@.len() == b@.len(),
            a@.len() <= DIM_MAX,
            av == row_view(*a),
            bv == row_view(*b),
            bnd == 2 * (VAL_MAX as int),
            forall|i: int| 0 <= i < av.len() ==> -bnd <= #[trigger] av[i] <= bnd,
            forall|i: int| 0 <= i < bv.len() ==> -bnd <= #[trigger] bv[i] <= bnd,
            acc == spec_dot(av.take(idx as int), bv.take(idx as int)),
            -((idx as int) * (bnd * bnd)) <= acc <= (idx as int) * (bnd * bnd),
    {
        let ghost x = av[idx as int];
        let ghost y = bv[idx as int];
        proof {
            lemma_take_push(av, idx as int);
            lemma_take_push(bv, idx as int);
            lemma_dot_push(av.take(idx as int), bv.take(idx as int), x, y);
            lemma_mul_bounds(x, y, bnd, bnd);
            assert(bnd * bnd == 4_000_000_000_000_000_000) by (nonlinear_arith)
                requires
                    bnd == 2_000_000_000,
            ;
            assert((idx as int) * (bnd * bnd) + bnd * bnd == ((idx as int) + 1) * (bnd * bnd))
                by (nonlinear_arith);
            assert(((idx as int) + 1) * (bnd * bnd) <= 40_000_000_000_000_000_000_000)
                by (nonlinear_arith)
                requires
                    0 <= idx < 10_000,
                    bnd * bnd == 4_000_000_000_000_000_000,
            ;
        }
        let p: i128 = (a[idx] as i128) * (b[idx] as i128);
        acc = acc + p;
    }
    proof {
        assert(av.take(n as int) =~= av);
        assert(bv.take(n as int) =~= bv);
    }
    acc
}

/// A freshly built constant matrix: the factor initializer uses this to fill
/// `U` and `V` with the configured starting value.
pub fn filled(rows: usize, cols: usize, value: i64) -> (r: Matrix)
    requires
        rows <= DIM_MAX,
        cols <= DIM_MAX,
        -VAL_MAX <= value <= VAL_MAX,
    ensures
        mat_view(r) == spec_filled(rows as int, cols as int, value as int),
        is_rect(mat_view(r), rows as int, cols as int),
        bounded(mat_view(r), VAL_MAX as int),
{
    let ghost target = spec_filled(rows as int, cols as int, value as int);
    let mut out: Matrix = Vec::new();
    proof {
        assert(mat_view(out) =~= target.take(0));
    }
    for i in 0..rows
        invariant
            target == spec_filled(rows as int, cols as int, value as int),
            rows <= DIM_MAX,
            cols <= DIM_MAX,
            -VAL_MAX <= value <= VAL_MAX,
            mat_view(out) == target.take(i as int),
            out@.len() == i,
    {
        let ghost target_row = target[i as int];
        let mut row: Vec<i64> = Vec::new();
        proof {
            assert(row_view(row) =~= target_row.take(0));
        }
        for j in 0..cols
            invariant
                target_row == target[i as int],
                target == spec_filled(rows as int, cols as int, value as int),
                0 <= i < rows,
                rows <= DIM_MAX,
                cols <= DIM_MAX,
                -VAL_MAX <= value <= VAL_MAX,
                row_view(row) == target_row.take(j as int),
                row@.len() == j,
        {
            let ghost pre = row;
            row.push(value);
            proof {
                lemma_row_view_push(pre, row, value);
                lemma_take_push(target_row, j as int);
            }
        }
        let ghost pre_out = out;
        proof {
            assert(target_row.take(cols as int) =~= target_row);
        }
        out.push(row);
        proof {
            lemma_mat_view_push(pre_out, out, row);
            lemma_take_push(target, i as int);
        }
    }
    proof {
        assert(target.take(rows as int) =~= target);
    }
    out
}

/// Sum of all entries, exact in `i128`.
pub fn mat_sum(m: &Matrix, rows: usize, cols: usize) -> (r: i128)
    requires
        is_rect(mat_view(*m), rows as int, cols as int),
        rows <= DIM_MAX,
        cols <= DIM_MAX,
        bounded(mat_view(*m), 2 * (VAL_MAX as int)),
    ensures
        r == spec_mat_sum(mat_view(*m)),
{
    let ghost mv = mat_view(*m);
    let ghost bnd: int = 2 * (VAL_MAX as int);
    let ghost rowbnd: int = (cols as int) * bnd;
    proof {
        assert(rowbnd <= 20_000_000_000_000) by (nonlinear_arith)
            requires
                rowbnd == (cols as int) * bnd,
                0 <= cols <= 10_000,
                bnd == 2_000_000_000,
        ;
        assert(mv.take(0) =~= Seq::<Seq<int>>::empty());
    }
    let mut acc: i128 = 0;
    for i in 0..rows
        invariant
            is_rect(mv, rows as int, cols as int),
            mv == mat_view(*m),
            rows <= DIM_MAX,
            cols <= DIM_MAX,
            bnd == 2 * (VAL_MAX as int),
            rowbnd == (cols as int) * bnd,
            0 <= rowbnd <= 20_000_000_000_000,
            bounded(mv, bnd),
            acc == spec_mat_sum(mv.take(i as int)),
            -((i as int) * rowbnd) <= acc <= (i as int) * rowbnd,
    {
        let mut row_acc: i128 = 0;
        let ghost rv = mv[i as int];
        proof {
            assert(rv.take(0) =~= Seq::<int>::empty());
            assert(forall|t: int| 0 <= t < rv.len() ==> -bnd <= #[trigger] rv[t] <= bnd);
        }
        for j in 0..cols
            invariant
                is_rect(mv, rows as int, cols as int),
                mv == mat_view(*m),
                0 <= i < rows,
                rows <= DIM_MAX,
                cols <= DIM_MAX,
                bnd == 2 * (VAL_MAX as int),
                bounded(mv, bnd),
                rv == mv[i as int],
                forall|t: int| 0 <= t < rv.len() ==> -bnd <= #[trigger] rv[t] <= bnd,
                row_acc == spec_row_sum(rv.take(j as int)),
                -((j as int) * bnd) <= row_acc <= (j as int) * bnd,
        {
            proof {
                lemma_take_push(rv, j as int);
                lemma_row_sum_push(rv.take(j as int), rv[j as int]);
                assert(mv[i as int][j as int] == m@[i as int]@[j as int] as int);
                assert((j as int) * bnd + bnd == ((j as int) + 1) * bnd) by (nonlinear_arith);
                assert(((j as int) + 1) * bnd <= 20_000_000_000_000) by (nonlinear_arith)
                    requires
                        0 <= j < 10_000,
                        bnd == 2_000_000_000,
                ;
            }
            row_acc = row_acc + (m[i][j] as i128);
        }
        proof {
            assert(rv.take(cols as int) =~= rv);
            lemma_take_push(mv, i as int);
            lemma_mat_sum_push(mv.take(i as int), rv);
            assert((i as int) * rowbnd + rowbnd == ((i as int) + 1) * rowbnd) by (nonlinear_arith);
            assert(((i as int) + 1) * rowbnd <= 200_000_000_000_000_000) by (nonlinear_arith)
                requires
                    0 <= i < 10_000,
                    0 <= rowbnd <= 20_000_000_000_000,
            ;
            assert(-rowbnd <= row_acc <= rowbnd) by (nonlinear_arith)
                requires
                    rowbnd == (cols as int) * bnd,
                    -((cols as int) * bnd) <= row_acc <= (cols as int) * bnd,
            ;
        }
        acc = acc + row_acc;
    }
    proof {
        assert(mv.take(rows as int) =~= mv);
    }
    acc
}

/// Sum of the squares of all entries, exact in `i128`.
pub fn sq_sum(m: &Matrix, rows: usize, cols: usize) -> (r: i128)
    requires
        is_rect(mat_view(*m), rows as int, cols as int),
        rows <= DIM_MAX,
        cols <= DIM_MAX,
        bounded(mat_view(*m), 2 * (VAL_MAX as int)),
    ensures
        r == spec_sq_sum(mat_view(*m)),
        r >= 0,
{
    let ghost mv = mat_view(*m);
    let ghost bnd: int = 2 * (VAL_MAX as int);
    let ghost cell: int = bnd * bnd;
    let ghost rowbnd: int = (cols as int) * cell;
    proof {
        assert(cell == 4_000_000_000_000_000_000) by (nonlinear_arith)
            requires
                cell == bnd * bnd,
                bnd == 2_000_000_000,
        ;
        assert(rowbnd <= 40_000_000_000_000_000_000_000) by (nonlinear_arith)
            requires
                rowbnd == (cols as int) * cell,
                0 <= cols <= 10_000,
                cell == 4_000_000_000_000_000_000,
        ;
        assert(rowbnd >= 0) by (nonlinear_arith)
            requires
                rowbnd == (cols as int) * cell,
                0 <= cols,
                cell == 4_000_000_000_000_000_000,
        ;
        assert(mv.take(0) =~= Seq::<Seq<int>>::empty());
    }
    let mut acc: i128 = 0;
    for i in 0..rows
        invariant
            is_rect(mv, rows as int, cols as int),
            mv == mat_view(*m),
            rows <= DIM_MAX,
            cols <= DIM_MAX,
            bnd == 2 * (VAL_MAX as int),
            cell == bnd * bnd,
            cell == 4_000_000_000_000_000_000,
            rowbnd == (cols as int) * cell,
            0 <= rowbnd <= 40_000_000_000_000_000_000_000,
            bounded(mv, bnd),
            acc == spec_sq_sum(mv.take(i as int)),
            0 <= acc <= (i as int) * rowbnd,
    {
        let mut row_acc: i128 = 0;
        let ghost rv = mv[i as int];
        proof {
            assert(rv.take(0) =~= Seq::<int>::empty());
            assert(forall|t: int| 0 <= t < rv.len() ==> -bnd <= #[trigger] rv[t] <= bnd);
        }
        for j in 0..cols
            invariant
                is_rect(mv, rows as int, cols as int),
                mv == mat_view(*m),
                0 <= i < rows,
                rows <= DIM_MAX,
                cols <= DIM_MAX,
                bnd == 2 * (VAL_MAX as int),
                cell == bnd * bnd,
                cell == 4_000_000_000_000_000_000,
                bounded(mv, bnd),
                rv == mv[i as int],
                forall|t: int| 0 <= t < rv.len() ==> -bnd <= #[trigger] rv[t] <= bnd,
                row_acc == spec_row_sq_sum(rv.take(j as int)),
                0 <= row_acc <= (j as int) * cell,
        {
            proof {
                lemma_take_push(rv, j as int);
                lemma_row_sq_sum_push(rv.take(j as int), rv[j as int]);
                assert(mv[i as int][j as int] == m@[i as int]@[j as int] as int);
                lemma_mul_bounds(rv[j as int], rv[j as int], bnd, bnd);
                assert(rv[j as int] * rv[j as int] >= 0) by (nonlinear_arith);
                assert((j as int) * cell + cell == ((j as int) + 1) * cell) by (nonlinear_arith);
                assert(((j as int) + 1) * cell <= 40_000_000_000_000_000_000_000)
                    by (nonlinear_arith)
                    requires
                        0 <= j < 10_000,
                        cell == 4_000_000_000_000_000_000,
                ;
            }
            let e: i128 = m[i][j] as i128;
            row_acc = row_acc + e * e;
        }
        proof {
            assert(rv.take(cols as int) =~= rv);
            lemma_take_push(mv, i as int);
            lemma_sq_sum_push(mv.take(i as int), rv);
            assert((i as int) * rowbnd + rowbnd == ((i as int) + 1) * rowbnd) by (nonlinear_arith);
            assert(((i as int) + 1) * rowbnd <= 400_000_000_000_000_000_000_000_000)
                by (nonlinear_arith)
                requires
                    0 <= i < 10_000,
                    0 <= rowbnd <= 40_000_000_000_000_000_000_000,
            ;
            assert(0 <= row_acc <= rowbnd) by (nonlinear_arith)
                requires
                    rowbnd == (cols as int) * cell,
                    0 <= row_acc <= (cols as int) * cell,
            ;
        }
        acc = acc + row_acc;
    }
    proof {
        assert(mv.take(rows as int) =~= mv);
    }
    acc
}

/// The fixed-point product `U * V^T`, or `None` when some entry of the
/// product leaves the representable range.
pub fn matmul_t(u: &Matrix, v: &Matrix, rows: usize, cols: usize, k: usize) -> (r: Option<Matrix>)
    requires
        is_rect(mat_view(*u), rows as int, k as int),
        is_rect(mat_view(*v), cols as int, k as int),
        rows <= DIM_MAX,
        cols <= DIM_MAX,
        k <= DIM_MAX,
        bounded(mat_view(*u), VAL_MAX as int),
        bounded(mat_view(*v), VAL_MAX as int),
    ensures
        match r {
            Some(p) => mat_view(p) == spec_matmul_t(mat_view(*u), mat_view(*v)) && is_rect(
                mat_view(p),
                rows as int,
                cols as int,
            ) && bounded(mat_view(p), VAL_MAX as int),
            None => !bounded(spec_matmul_t(mat_view(*u), mat_view(*v)), VAL_MAX as int),
        },
{
    let ghost uv = mat_view(*u);
    let ghost vv = mat_view(*v);
    let ghost target = spec_matmul_t(uv, vv);
    let mut out: Matrix = Vec::new();
    proof {
        assert(mat_view(out) =~= target.take(0));
    }
    for i in 0..rows
        invariant
            is_rect(uv, rows as int, k as int),
            is_rect(vv, cols as int, k as int),
            uv == mat_view(*u),
            vv == mat_view(*v),
            target == spec_matmul_t(uv, vv),
            rows <= DIM_MAX,
            cols <= DIM_MAX,
            k <= DIM_MAX,
            bounded(uv, VAL_MAX as int),
            bounded(vv, VAL_MAX as int),
            out@.len() == i,
            mat_view(out) == target.take(i as int),
            forall|ii: int, jj: int|
                0 <= ii < i && 0 <= jj < cols ==> -(VAL_MAX as int) <= #[trigger] target[ii][jj]
                    <= VAL_MAX as int,
    {
        let mut row: Vec<i64> = Vec::new();
        let ghost target_row = target[i as int];
        proof {
            assert(row_view(row) =~= target_row.take(0));
        }
        for j in 0..cols
            invariant
                is_rect(uv, rows as int, k as int),
                is_rect(vv, cols as int, k as int),
                uv == mat_view(*u),
                vv == mat_view(*v),
                target == spec_matmul_t(uv, vv),
                target_row == target[i as int],
                0 <= i < rows,
                rows <= DIM_MAX,
                cols <= DIM_MAX,
                k <= DIM_MAX,
                bounded(uv, VAL_MAX as int),
                bounded(vv, VAL_MAX as int),
                row@.len() == j,
                row_view(row) == target_row.take(j as int),
                forall|jj: int|
                    0 <= jj < j ==> -(VAL_MAX as int) <= #[trigger] target_row[jj]
                        <= VAL_MAX as int,
        {
            proof {
                assert(row_view(u@[i as int]) == uv[i as int]);
                assert(row_view(v@[j as int]) == vv[j as int]);
                assert(forall|t: int|
                    0 <= t < k ==> -(VAL_MAX as int) <= #[trigger] uv[i as int][t]
                        <= VAL_MAX as int);
                assert(forall|t: int|
                    0 <= t < k ==> -(VAL_MAX as int) <= #[trigger] vv[j as int][t]
                        <= VAL_MAX as int);
                assert forall|t: int|
                    0 <= t < u@[i as int]@.len() implies -2 * (VAL_MAX as int)
                    <= #[trigger] u@[i as int]@[t] <= 2 * (VAL_MAX as int) by {
                    assert(u@[i as int]@[t] as int == uv[i as int][t]);
                    assert(-(VAL_MAX as int) <= uv[i as int][t] <= VAL_MAX as int);
                }
                assert forall|t: int|
                    0 <= t < v@[j as int]@.len() implies -2 * (VAL_MAX as int)
                    <= #[trigger] v@[j as int]@[t] <= 2 * (VAL_MAX as int) by {
                    assert(v@[j as int]@[t] as int == vv[j as int][t]);
                    assert(-(VAL_MAX as int) <= vv[j as int][t] <= VAL_MAX as int);
                }
            }
            let d = dot(&u[i], &v[j]);
            let q = div_trunc(d, SCALE as i128);
            proof {
                assert(target_row[j as int] == t_div(
                    spec_dot(uv[i as int], vv[j as int]),
                    SCALE as int,
                ));
                assert(q == target_row[j as int]);
            }
            if q > VAL_MAX as i128 || q < -(VAL_MAX as i128) {
                proof {
                    assert(target[i as int][j as int] == q);
                    assert(!(-(VAL_MAX as int) <= target[i as int][j as int] <= VAL_MAX as int));
                    assert(!bounded(target, VAL_MAX as int));
                }
                return None;
            }
            let ghost pre = row;
            row.push(q as i64);
            proof {
                lemma_row_view_push(pre, row, q as i64);
                lemma_take_push(target_row, j as int);
            }
        }
        let ghost pre_out = out;
        proof {
            assert(target_row.take(cols as int) =~= target_row);
        }
        out.push(row);
        proof {
            lemma_mat_view_push(pre_out, out, row);
            lemma_take_push(target, i as int);
        }
    }
    proof {
        assert(target.take(rows as int) =~= target);
        assert(is_rect(target, rows as int, cols as int));
        assert(bounded(target, VAL_MAX as int));
    }
    Some(out)
}

} // verus!
