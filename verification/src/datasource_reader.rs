//! Mapping external identifiers to dense matrix indices.
//!
//! Rating records arrive as `(user id, item id, rating)` lines with
//! arbitrary external identifiers.  The reader assigns each distinct user
//! and item a dense zero-based index in order of first appearance and
//! materializes the dense rating matrix; the optimizer core never sees an
//! external identifier.  Reading the lines themselves is input-output and
//! stays with the caller, which hands the parsed records in.

use vstd::prelude::*;
use std::collections::HashMap;
use crate::fixed::{SCALE, VAL_MAX, DIM_MAX};
use crate::matrix::{
    Matrix, mat_view, row_view, is_rect, bounded, spec_filled, lemma_take_push,
    lemma_row_view_push, lemma_mat_view_set, filled,
};

verus! {

broadcast use vstd::std_specs::hash::group_hash_axioms;

/// The character is a decimal digit (code points 48 through 57).
pub open spec fn is_digit(c: char) -> bool {
    48 <= c as int <= 57
}

/// The number a sequence of decimal digits denotes.
pub open spec fn digits_val(s: Seq<char>) -> int
    decreases s.len(),
{
    if s.len() == 0 {
        0
    } else {
        digits_val(s.drop_last()) * 10 + (s.last() as int - 48)
    }
}

/// A digit string denotes a non-negative number.
proof fn lemma_digits_val_nonneg(s: Seq<char>)
    requires
        forall|i: int| 0 <= i < s.len() ==> is_digit(#[trigger] s[i]),
    ensures
        digits_val(s) >= 0,
    decreases s.len(),
{
    if s.len() > 0 {
        let p = s.drop_last();
        assert(forall|i: int| 0 <= i < p.len() ==> is_digit(#[trigger] p[i])) by {
            assert(forall|i: int| 0 <= i < p.len() ==> p[i] == s[i]);
        }
        lemma_digits_val_nonneg(p);
        assert(digits_val(p) * 10 >= 0) by (nonlinear_arith)
            requires
                digits_val(p) >= 0,
        ;
    }
}

/// A prefix of a digit string denotes at most what the whole string denotes.
proof fn lemma_digits_val_prefix_le(s: Seq<char>, i: int)
    requires
        forall|j: int| 0 <= j < s.len() ==> is_digit(#[trigger] s[j]),
        0 <= i <= s.len(),
    ensures
        digits_val(s.take(i)) <= digits_val(s),
    decreases s.len() - i,
{
    if i == s.len() {
        assert(s.take(i) =~= s);
    } else {
        lemma_take_push(s, i);
        let p = s.take(i);
        assert(forall|j: int| 0 <= j < p.len() ==> is_digit(#[trigger] p[j])) by {
            assert(forall|j: int| 0 <= j < p.len() ==> p[j] == s[j]);
        }
        lemma_digits_val_nonneg(p);
        assert(s.take(i + 1).drop_last() =~= p);
        assert(digits_val(s.take(i + 1)) == digits_val(p) * 10 + (s[i] as int - 48));
        assert(digits_val(p) * 10 >= digits_val(p)) by (nonlinear_arith)
            requires
                digits_val(p) >= 0,
        ;
        lemma_digits_val_prefix_le(s, i + 1);
    }
}

/// Parse a decimal digit string into a machine word.
///
/// The caller is responsible for handing in a non-empty all-digit string
/// whose value fits; anything else is a malformed data file, rejected before
/// this point.
pub fn parse_to_uzise(s: &str) -> (r: usize)
    requires
        s@.len() >= 1,
        forall|i: int| 0 <= i < s@.len() ==> is_digit(#[trigger] s@[i]),
        digits_val(s@) <= usize::MAX,
    ensures
        r == digits_val(s@),
{
    let n = s.unicode_len();
    let mut acc: usize = 0;
    proof {
        assert(s@.take(0) =~= Seq::<char>::empty());
    }
    for i in 0..n
        invariant
            n == s@.len(),
            forall|j: int| 0 <= j < s@.len() ==> is_digit(#[trigger] s@[j]),
            digits_val(s@) <= usize::MAX,
            acc == digits_val(s@.take(i as int)),
    {
        proof {
            lemma_take_push(s@, i as int);
            assert(s@.take(i as int + 1).drop_last() =~= s@.take(i as int));
            assert(digits_val(s@.take(i as int + 1)) == digits_val(s@.take(i as int)) * 10 + (
            s@[i as int] as int - 48));
            lemma_digits_val_prefix_le(s@, i as int + 1);
            lemma_digits_val_nonneg(s@.take(i as int));
        }
        let c = s.get_char(i);
        let d: u32 = (c as u32) - 48;
        acc = acc * 10 + (d as usize);
    }
    proof {
        assert(s@.take(n as int) =~= s@);
    }
    acc
}

/// The dense index assigned to each distinct identifier, in order of first
/// appearance.
pub open spec fn spec_dense_index(ids: Seq<usize>) -> Map<usize, usize>
    decreases ids.len(),
{
    if ids.len() == 0 {
        Map::empty()
    } else {
        let m = spec_dense_index(ids.drop_last());
        if m.contains_key(ids.last()) {
            m
        } else {
            m.insert(ids.last(), m.len() as usize)
        }
    }
}

/// The dense index map is finite, no larger than its input, and assigns
/// indices below its own size.
pub proof fn lemma_dense_index_props(ids: Seq<usize>)
    ensures
        spec_dense_index(ids).dom().finite(),
        spec_dense_index(ids).len() <= ids.len(),
        forall|k: usize| #[trigger]
            spec_dense_index(ids).contains_key(k) ==> (spec_dense_index(ids)[k] as int)
                < spec_dense_index(ids).len(),
    decreases ids.len(),
{
    broadcast use vstd::set::group_set_axioms;

    if ids.len() > 0 {
        lemma_dense_index_props(ids.drop_last());
        let m = spec_dense_index(ids.drop_last());
        if !m.contains_key(ids.last()) {
            assert(m.insert(ids.last(), m.len() as usize).dom() =~= m.dom().insert(ids.last()));
        }
    }
}

/// The user identifiers of a record list.
pub open spec fn user_ids(records: Seq<(usize, usize)>) -> Seq<usize> {
    Seq::new(records.len(), |i: int| records[i].0)
}

/// The item identifiers of a record list.
pub open spec fn movie_ids(records: Seq<(usize, usize)>) -> Seq<usize> {
    Seq::new(records.len(), |i: int| records[i].1)
}

/// The dense matrix filled from a record list: starting from `m0`, each
/// `(user, item, rating)` record writes its scaled rating into the cell the
/// index maps assign it, later records overwriting earlier ones.
pub open spec fn spec_fill(
    m0: Seq<Seq<int>>,
    mu: Map<usize, usize>,
    mm: Map<usize, usize>,
    records: Seq<(usize, usize, i64)>,
) -> Seq<Seq<int>>
    decreases records.len(),
{
    if records.len() == 0 {
        m0
    } else {
        let prev = spec_fill(m0, mu, mm, records.drop_last());
        let t = records.last();
        let i = mu[t.0] as int;
        let j = mm[t.1] as int;
        prev.update(i, prev[i].update(j, t.2 * (SCALE as int)))
    }
}

/// Maps external user and item identifiers to dense zero-based row and
/// column indices, in order of first appearance in the data.
pub struct DatasourceReader {
    pub rows: usize,
    pub cols: usize,
    pub mapped_users: HashMap<usize, usize>,
    pub mapped_movies: HashMap<usize, usize>,
}

impl DatasourceReader {
    /// The index maps are consistent: the dimension counts equal the map
    /// sizes and every assigned index lies below them.
    pub open spec fn wf(self) -> bool {
        &&& self.rows == self.mapped_users@.len()
        &&& self.cols == self.mapped_movies@.len()
        &&& self.mapped_users@.dom().finite()
        &&& self.mapped_movies@.dom().finite()
        &&& forall|k: usize| #[trigger]
            self.mapped_users@.contains_key(k) ==> (self.mapped_users@[k] as int) < self.rows
        &&& forall|k: usize| #[trigger]
            self.mapped_movies@.contains_key(k) ==> (self.mapped_movies@[k] as int) < self.cols
    }

    /// Scan the `(user id, item id)` pairs of the data once and assign each
    /// distinct identifier a dense index in order of first appearance.
    pub fn new(records: &Vec<(usize, usize)>) -> (r: DatasourceReader)
        ensures
            r.mapped_users@ == spec_dense_index(user_ids(records@)),
            r.mapped_movies@ == spec_dense_index(movie_ids(records@)),
            r.rows == spec_dense_index(user_ids(records@)).len(),
            r.cols == spec_dense_index(movie_ids(records@)).len(),
            r.wf(),
    {
        let ghost uids = user_ids(records@);
        let ghost mids = movie_ids(records@);
        let mut users: HashMap<usize, usize> = HashMap::new();
        let mut movies: HashMap<usize, usize> = HashMap::new();
        let mut mapped_user_id: usize = 0;
        let mut mapped_movie_id: usize = 0;
        let n = records.len();
        proof {
            assert(uids.take(0) =~= Seq::<usize>::empty());
            assert(mids.take(0) =~= Seq::<usize>::empty());
            assert(users@ =~= spec_dense_index(uids.take(0)));
            assert(movies@ =~= spec_dense_index(mids.take(0)));
        }
        for idx in 0..n
            invariant
                n == records@.len(),
                uids == user_ids(records@),
                mids == movie_ids(records@),
                users@ == spec_dense_index(uids.take(idx as int)),
                movies@ == spec_dense_index(mids.take(idx as int)),
                users@.dom().finite(),
                movies@.dom().finite(),
                mapped_user_id == users@.len(),
                mapped_movie_id == movies@.len(),
                users@.len() <= idx,
                movies@.len() <= idx,
        {
            broadcast use vstd::set::group_set_axioms;

            let user_id = records[idx].0;
            let movie_id = records[idx].1;
            proof {
                assert(uids[idx as int] == user_id);
                assert(mids[idx as int] == movie_id);
                lemma_take_push(uids, idx as int);
                lemma_take_push(mids, idx as int);
                assert(uids.take(idx as int + 1).drop_last() =~= uids.take(idx as int));
                assert(mids.take(idx as int + 1).drop_last() =~= mids.take(idx as int));
            }
            if !users.contains_key(&user_id) {
                users.insert(user_id, mapped_user_id);
                mapped_user_id = mapped_user_id + 1;
                proof {
                    assert(users@.dom() =~= spec_dense_index(
                        uids.take(idx as int),
                    ).dom().insert(user_id));
                }
            }
            if !movies.contains_key(&movie_id) {
                movies.insert(movie_id, mapped_movie_id);
                mapped_movie_id = mapped_movie_id + 1;
                proof {
                    assert(movies@.dom() =~= spec_dense_index(
                        mids.take(idx as int),
                    ).dom().insert(movie_id));
                }
            }
        }
        proof {
            assert(uids.take(n as int) =~= uids);
            assert(mids.take(n as int) =~= mids);
            lemma_dense_index_props(uids);
            lemma_dense_index_props(mids);
        }
        DatasourceReader {
            rows: mapped_user_id,
            cols: mapped_movie_id,
            mapped_users: users,
            mapped_movies: movies,
        }
    }

    /// Materialize the dense rating matrix from the `(user id, item id,
    /// rating)` records: unobserved cells stay zero, observed cells receive
    /// their rating in fixed point, later records overwriting earlier ones.
    ///
    /// Every record's identifiers must already be mapped, and ratings must
    /// lie on the bounded rating scale.
    pub fn read_data(&self, records: &Vec<(usize, usize, i64)>) -> (r: Matrix)
        requires
            self.wf(),
            self.rows <= DIM_MAX,
            self.cols <= DIM_MAX,
            forall|t: int|
                0 <= t < records@.len() ==> self.mapped_users@.contains_key(
                    (#[trigger] records@[t]).0,
                ) && self.mapped_movies@.contains_key(records@[t].1) && 0 <= records@[t].2 <= 1000,
        ensures
            mat_view(r) == spec_fill(
                spec_filled(self.rows as int, self.cols as int, 0),
                self.mapped_users@,
                self.mapped_movies@,
                records@,
            ),
            is_rect(mat_view(r), self.rows as int, self.cols as int),
            bounded(mat_view(r), VAL_MAX as int),
    {
        let rows = self.rows;
        let cols = self.cols;
        let ghost mu = self.mapped_users@;
        let ghost mm = self.mapped_movies@;
        let ghost base = spec_filled(rows as int, cols as int, 0);
        let mut m = filled(rows, cols, 0);
        let n = records.len();
        proof {
            assert(records@.take(0) =~= Seq::<(usize, usize, i64)>::empty());
        }
        for idx in 0..n
            invariant
                self.wf(),
                rows == self.rows,
                cols == self.cols,
                mu == self.mapped_users@,
                mm == self.mapped_movies@,
                base == spec_filled(rows as int, cols as int, 0),
                rows <= DIM_MAX,
                cols <= DIM_MAX,
                n == records@.len(),
                forall|t: int|
                    0 <= t < records@.len() ==> self.mapped_users@.contains_key(
                        (#[trigger] records@[t]).0,
                    ) && self.mapped_movies@.contains_key(records@[t].1) && 0 <= records@[t].2
                        <= 1000,
                mat_view(m) == spec_fill(base, mu, mm, records@.take(idx as int)),
                is_rect(mat_view(m), rows as int, cols as int),
                bounded(mat_view(m), VAL_MAX as int),
        {
            let uid = records[idx].0;
            let mid = records[idx].1;
            let rating = records[idx].2;
            let i: usize = match self.mapped_users.get(&uid) {
                Some(x) => *x,
                None => {
                    proof {
                        assert(false);
                    }
                    0
                },
            };
            let j: usize = match self.mapped_movies.get(&mid) {
                Some(x) => *x,
                None => {
                    proof {
                        assert(false);
                    }
                    0
                },
            };
            proof {
                assert(i == mu[uid] && (i as int) < rows);
                assert(j == mm[mid] && (j as int) < cols);
            }
            let val: i64 = rating * SCALE;
            let ghost mv = mat_view(m);
            let ghost target_row = mv[i as int].update(j as int, val as int);
            let mut newrow: Vec<i64> = Vec::new();
            proof {
                assert(row_view(newrow) =~= target_row.take(0));
            }
            for jj in 0..cols
                invariant
                    mv == mat_view(m),
                    is_rect(mv, rows as int, cols as int),
                    bounded(mv, VAL_MAX as int),
                    target_row == mv[i as int].update(j as int, val as int),
                    0 <= i < rows,
                    0 <= j < cols,
                    rows <= DIM_MAX,
                    cols <= DIM_MAX,
                    0 <= rating <= 1000,
                    val == rating * SCALE,
                    newrow@.len() == jj,
                    row_view(newrow) == target_row.take(jj as int),
            {
                proof {
                    assert(mv[i as int][jj as int] == m@[i as int]@[jj as int] as int);
                    assert(0 <= val <= 1_000_000_000) by (nonlinear_arith)
                        requires
                            val == rating * SCALE,
                            0 <= rating <= 1000,
                            SCALE == 1_000_000,
                    ;
                }
                let cell: i64 = if jj == j {
                    val
                } else {
                    m[i][jj]
                };
                let ghost pre = newrow;
                newrow.push(cell);
                proof {
                    lemma_row_view_push(pre, newrow, cell);
                    lemma_take_push(target_row, jj as int);
                }
            }
            let ghost pre_m = m;
            proof {
                assert(target_row.take(cols as int) =~= target_row);
            }
            m.set(i, newrow);
            proof {
                lemma_mat_view_set(pre_m, m, i as int, newrow);
                lemma_take_push(records@, idx as int);
                assert(records@.take(idx as int + 1).drop_last() =~= records@.take(idx as int));
                assert(records@.take(idx as int + 1).last() == records@[idx as int]);
                assert(mat_view(m) == spec_fill(base, mu, mm, records@.take(idx as int + 1)));
                assert(is_rect(mat_view(m), rows as int, cols as int));
                assert forall|i2: int, j2: int|
                    0 <= i2 < mat_view(m).len() && 0 <= j2 < mat_view(m)[i2].len() implies -(
                VAL_MAX as int) <= #[trigger] mat_view(m)[i2][j2] <= VAL_MAX as int by {
                    if i2 == i as int {
                        assert(mat_view(m)[i2] == target_row);
                        if j2 == j as int {
                            assert(target_row[j2] == val as int);
                            assert(0 <= val <= 1_000_000_000) by (nonlinear_arith)
                                requires
                                    val == rating * SCALE,
                                    0 <= rating <= 1000,
                                    SCALE == 1_000_000,
                            ;
                        } else {
                            assert(target_row[j2] == mv[i2][j2]);
                        }
                    } else {
                        assert(mat_view(m)[i2] == mv[i2]);
                    }
                }
            }
        }
        proof {
            assert(records@.take(n as int) =~= records@);
        }
        m
    }
}

} // verus!
