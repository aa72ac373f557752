//! The factors of a dense matrix: SVD by way of QR.
//!
//! A tall matrix is first reduced: `A = Q R`, and the SVD of the small square `R = U s V^T` gives
//! that of `A`, with the left vectors `Q U`. A wide matrix is transposed first and its two factors
//! exchanged.

use crate::algebra::{lemma_assoc, lemma_comm, lemma_one, lemma_regroup};
use crate::exact::{
    delta, inner, lemma_isometry, lemma_lane_dot, lemma_sum_ext, lemma_sum_scale, lemma_sum_split,
    lemma_sum_swap, sum,
};
#[allow(unused_imports)]
use crate::grid::{cell, columns, lemma_cell_bound, lemma_cell_div, lemma_panel_bounds, panels};
use crate::grid::transpose;
use crate::house::{q_pass, r_k_from_r, r_pass};
#[allow(unused_imports)]
use crate::house::{lesser, qr_q, qr_r, tall};
#[allow(unused_imports)]
use crate::lanes::lane_dot;
use crate::matmul::matmul_rt;
#[allow(unused_imports)]
use crate::matmul::{column_of, row_of};
use crate::qr_laws::{law_q_orthonormal, law_qr_product};
use crate::scalar::{Scalar, WideScalar};
#[allow(unused_imports)]
use crate::scalar::{roots_exist, Number, WideNumber};
use crate::svd::svd_cpu;
#[allow(unused_imports)]
use crate::svd::{
    all_settled, left_entry, right_entry, singular_value, svd_state, Jacobi, JACOBI_PLACES,
};
use crate::svd_laws::{
    law_left_orthogonal, law_left_unit, law_right_orthonormal, law_svd_product, left_inner,
    lemma_energy,
};
use vstd::prelude::*;

verus! {

/// The triangular factor of the matrix with columns `cols`, of `n` entries each, as a row-major
/// square buffer.
pub open spec fn square_r<N: Number>(lanes: bool, cols: Seq<Seq<N>>, n: int) -> Seq<N> {
    let m = cols.len() as int;
    Seq::new((m * m) as nat, |x: int| qr_r(lanes, cols, n, x / m, x % m))
}

/// The SVD of the triangular factor.
pub open spec fn reduced_state<S: Number, D: WideNumber<S>>(
    lanes: bool,
    cols: Seq<Seq<S>>,
    n: int,
    sweeps: int,
) -> Jacobi<D> {
    let m = cols.len() as int;
    svd_state::<S, D>(lanes, square_r(lanes, cols, n), m, m, sweeps)
}

/// Entry `r` of left singular vector `i` of the tall matrix with columns `cols`: row `r` of `Q`
/// with left singular vector `i` of `R`.
pub open spec fn tall_left<S: Number, D: WideNumber<S>>(
    lanes: bool,
    cols: Seq<Seq<S>>,
    n: int,
    sweeps: int,
    r: int,
    i: int,
) -> S {
    let m = cols.len() as int;
    let st = reduced_state::<S, D>(lanes, cols, n, sweeps);
    lane_dot(
        Seq::new(m as nat, |c: int| qr_q(lanes, cols, n)[c][r]),
        Seq::new(m as nat, |c: int| left_entry(lanes, st, m, c, i).narrowed()),
    )
}

/// The `k` first singular triplets of the matrix with columns `cols` of `n` entries, no more
/// columns than rows: right vectors in `right`, row-major, values in `s`, left vectors in `left`,
/// row-major.
pub open spec fn tall_triplets<S: Number, D: WideNumber<S>>(
    lanes: bool,
    cols: Seq<Seq<S>>,
    n: int,
    k: int,
    sweeps: int,
    right: Seq<S>,
    s: Seq<S>,
    left: Seq<S>,
) -> bool {
    let m = cols.len() as int;
    let st = reduced_state::<S, D>(lanes, cols, n, sweeps);
    &&& right.len() == m * k
    &&& s.len() == k
    &&& left.len() == n * k
    &&& forall|j: int, i: int|
        0 <= j < m && 0 <= i < k ==> #[trigger] right[cell(j, k, i)] == right_entry(
            st,
            j,
            i,
        ).narrowed()
    &&& forall|i: int| 0 <= i < k ==> #[trigger] s[i] == singular_value(st, i).narrowed()
    &&& forall|r: int, i: int|
        0 <= r < n && 0 <= i < k ==> #[trigger] left[cell(r, k, i)] == tall_left::<S, D>(
            lanes,
            cols,
            n,
            sweeps,
            r,
            i,
        )
}

/// The `k` first singular triplets `(right, s, left)` of a row-major `n x m` matrix, `n >= m`.
pub fn factor_tall<S: Scalar, D: WideScalar<S>>(
    a: &[S],
    n: usize,
    m: usize,
    k: usize,
    sweeps: usize,
    lanes: bool,
) -> (res: (Vec<S>, Vec<S>, Vec<S>))
    requires
        k <= m <= n,
        a.len() >= n * m,
    ensures
        tall_triplets::<S, D>(
            lanes,
            columns(a@, n as int, m as int),
            n as int,
            k as int,
            sweeps as int,
            res.0@,
            res.1@,
            res.2@,
        ),
{
    let ghost cols = columns(a@, n as int, m as int);
    let (r, tau, _k) = r_pass(a, n, m, 1, lanes);
    let r_k = r_k_from_r(r.as_slice(), n, m, m);
    assert(m * m <= n * m) by (nonlinear_arith)
        requires
            0 <= m <= n,
    ;
    let ghost square = square_r(lanes, cols, n as int);
    proof {
        assert forall|x: int| 0 <= x < m * m implies #[trigger] r_k@[x] == square[x] by {
            let (i, c) = (x / m as int, x % m as int);
            lemma_place_of(m as int, x);
            assert(r_k@[cell(i, m as int, c)] == qr_r(lanes, cols, n as int, i, c));
        }
        assert(r_k@ =~= square);
    }
    let (v_r, s, u_r) = svd_cpu::<S, D>(r_k.as_slice(), m, m, k, sweeps, lanes);
    let q = q_pass(r.as_slice(), tau.as_slice(), n, m, m, 1, lanes);
    let left = matmul_rt(q.as_slice(), n, m, u_r.as_slice(), k, 1);
    proof {
        let st = reduced_state::<S, D>(lanes, cols, n as int, sweeps as int);
        assert forall|x: int, i: int| 0 <= x < n && 0 <= i < k implies #[trigger] left@[cell(
            x,
            k as int,
            i,
        )] == tall_left::<S, D>(lanes, cols, n as int, sweeps as int, x, i) by {
            lemma_panel_bounds(m as int, n as int, x);
            let row = Seq::new(m as nat, |c: int| qr_q(lanes, cols, n as int)[c][x]);
            let col = Seq::new(m as nat, |c: int| left_entry(lanes, st, m as int, c, i).narrowed());
            let qc = columns(q@, n as int, m as int);
            assert forall|c: int| 0 <= c < m implies row_of(q@, m as int, x)[c] == row[c] by {
                assert(qc[c] == qr_q(lanes, cols, n as int)[c]);
                assert(qc[c][x] == q@[cell(x, m as int, c)]);
            }
            assert(row_of(q@, m as int, x) =~= row);
            assert forall|c: int| 0 <= c < m implies column_of(u_r@, m as int, k as int, i)[c]
                == col[c] by {
                assert(u_r@[cell(c, k as int, i)] == left_entry(
                    lanes,
                    st,
                    m as int,
                    c,
                    i,
                ).narrowed());
            }
            assert(column_of(u_r@, m as int, k as int, i) =~= col);
        }
    }
    (v_r, s, left)
}

/// Line and entry of a place in a square buffer.
pub proof fn lemma_place_of(m: int, x: int)
    requires
        0 <= x < m * m,
        0 <= m,
    ensures
        0 <= x / m < m,
        0 <= x % m < m,
        cell(x / m, m, x % m) == x,
{
    assert(m > 0) by (nonlinear_arith)
        requires
            0 <= x < m * m,
            0 <= m,
    ;
    vstd::arithmetic::div_mod::lemma_fundamental_div_mod(x, m);
    vstd::arithmetic::div_mod::lemma_mod_bound(x, m);
    let q = x / m;
    let rem = x % m;
    vstd::arithmetic::mul::lemma_mul_is_commutative(m, q);
    assert(0 <= q < m) by (nonlinear_arith)
        requires
            0 <= q * m + rem < m * m,
            0 <= rem < m,
    ;
}

/// The singular triplets of a row-major `n x m` matrix, as many as `rank` and the shape allow:
/// `(u, s, v, k)` with the right vectors in `u`, row-major `m x k`, the left ones in `v`, row-major
/// `n x k`, and `k` the smallest of `rank`, `n` and `m`.
pub fn dense_factors<S: Scalar, D: WideScalar<S>>(
    a: &[S],
    n: usize,
    m: usize,
    rank: usize,
    sweeps: usize,
    lanes: bool,
) -> (res: (Vec<S>, Vec<S>, Vec<S>, usize))
    requires
        a.len() >= n * m,
    ensures
        res.3 == lesser(lesser(rank as int, m as int), n as int),
        n >= m ==> tall_triplets::<S, D>(
            lanes,
            columns(a@, n as int, m as int),
            n as int,
            res.3 as int,
            sweeps as int,
            res.0@,
            res.1@,
            res.2@,
        ),
        n < m ==> tall_triplets::<S, D>(
            lanes,
            panels(a@, m as int, n as int),
            m as int,
            res.3 as int,
            sweeps as int,
            res.2@,
            res.1@,
            res.0@,
        ),
{
    let k: usize = if rank <= m && rank <= n {
        rank
    } else if m <= n {
        m
    } else {
        n
    };
    if n >= m {
        let (right, s, left) = factor_tall::<S, D>(a, n, m, k, sweeps, lanes);
        (right, s, left, k)
    } else {
        let a_t = transpose(a, n, m);
        let (right, s, left) = factor_tall::<S, D>(a_t.as_slice(), m, n, k, sweeps, lanes);
        (left, s, right, k)
    }
}

/// All triplets of a tall matrix together are the matrix. With the first `kk` of them, what is
/// missing is the sum of those that were left out.
pub proof fn law_tall_product(
    lanes: bool,
    cols: Seq<Seq<real>>,
    n: int,
    sweeps: int,
    kk: int,
    r: int,
    j: int,
)
    requires
        roots_exist(),
        tall(cols, n),
        cols.len() <= n,
        0 <= r < n,
        0 <= j < cols.len(),
        0 <= kk <= cols.len(),
    ensures
        ({
            let m = cols.len() as int;
            let st = reduced_state::<real, real>(lanes, cols, n, sweeps);
            let term = |i: int|
                tall_left::<real, real>(lanes, cols, n, sweeps, r, i) * singular_value(st, i)
                    * right_entry(st, j, i);
            &&& cols[j][r] == sum(m, term)
            &&& cols[j][r] == sum(kk, term) + sum(m - kk, |i: int| term(kk + i))
        }),
{
    let m = cols.len() as int;
    let st = reduced_state::<real, real>(lanes, cols, n, sweeps);
    let square = square_r(lanes, cols, n);
    let left = |i: int| tall_left::<real, real>(lanes, cols, n, sweeps, r, i);
    let term = |i: int| left(i) * singular_value(st, i) * right_entry(st, j, i);
    let q = qr_q(lanes, cols, n);
    law_qr_product(lanes, cols, n, r, j);
    // A = Q R, and each entry of R is the sum of its triplets.
    let inner_term = |c: int, i: int| {
        let b = left_entry(lanes, st, m, c, i) * singular_value(st, i) * right_entry(st, j, i);
        q[c][r] * b
    };
    let by_row = |c: int| sum(m, |i: int| inner_term(c, i));
    let qr = |c: int| qr_q(lanes, cols, n)[c][r] * qr_r(lanes, cols, n, c, j);
    assert forall|c: int| 0 <= c < m implies #[trigger] qr(c) == by_row(c) by {
        law_svd_product(lanes, square, m, m, sweeps, 0, c, j);
        let t = |i: int|
            left_entry(lanes, st, m, c, i) * singular_value(st, i) * right_entry(st, j, i);
        lemma_cell_bound(m, m, c, j);
        lemma_cell_div(m, c, j);
        assert(square[cell(c, m, j)] == qr_r(lanes, cols, n, c, j));
        assert(sum(m, t) == qr_r(lanes, cols, n, c, j));
        lemma_sum_scale(m, t, q[c][r]);
        lemma_sum_ext(m, |i: int| q[c][r] * t(i), |i: int| inner_term(c, i));
    }
    lemma_sum_ext(m, qr, by_row);
    lemma_sum_swap(m, m, inner_term);
    let by_triplet = |i: int| sum(m, |c: int| inner_term(c, i));
    assert forall|i: int| 0 <= i < m implies #[trigger] by_triplet(i) == term(i) by {
        let x = Seq::new(m as nat, |c: int| qr_q(lanes, cols, n)[c][r]);
        let y = Seq::new(m as nat, |c: int| left_entry(lanes, st, m, c, i).narrowed());
        lemma_lane_dot(x, y);
        let f = |c: int| x[c] * y[c];
        let s = singular_value(st, i);
        let v = right_entry(st, j, i);
        let sv = s * v;
        lemma_sum_scale(m, f, sv);
        let g = |c: int| sv * f(c);
        let h = |c: int| inner_term(c, i);
        assert forall|c: int| 0 <= c < m implies #[trigger] h(c) == g(c) by {
            let (a, b) = (x[c], y[c]);
            lemma_assoc(b, s, v);
            lemma_assoc(a, b, sv);
            lemma_comm(a * b, sv);
        }
        lemma_sum_ext(m, h, g);
        lemma_assoc(left(i), s, v);
        lemma_comm(left(i), sv);
    }
    lemma_sum_ext(m, by_triplet, term);
    lemma_sum_split(m - kk, kk, term);
    let whole = |i: int|
        tall_left::<real, real>(lanes, cols, n, sweeps, r, i) * singular_value(st, i)
            * right_entry(st, j, i);
    lemma_sum_ext(m, term, whole);
    lemma_sum_ext(kk, term, whole);
    lemma_sum_ext(m - kk, |i: int| term(kk + i), |i: int| whole(kk + i));
}

/// The right singular vectors of a tall matrix are orthonormal.
pub proof fn law_tall_right(
    lanes: bool,
    cols: Seq<Seq<real>>,
    n: int,
    sweeps: int,
    i: int,
    i2: int,
)
    requires
        roots_exist(),
        0 <= i < cols.len(),
        0 <= i2 < cols.len(),
    ensures
        ({
            let st = reduced_state::<real, real>(lanes, cols, n, sweeps);
            sum(cols.len() as int, |j: int| right_entry(st, j, i) * right_entry(st, j, i2))
                == delta(i, i2)
        }),
{
    let m = cols.len() as int;
    law_right_orthonormal(lanes, square_r(lanes, cols, n), m, m, sweeps, i, i2);
}

/// The left singular vectors of a tall matrix have the inner products of those of its triangular
/// factor: they are orthonormal as far as those are.
pub proof fn law_tall_left(
    lanes: bool,
    cols: Seq<Seq<real>>,
    n: int,
    sweeps: int,
    i: int,
    i2: int,
)
    requires
        roots_exist(),
        tall(cols, n),
        cols.len() <= n,
        0 <= i < cols.len(),
        0 <= i2 < cols.len(),
    ensures
        sum(
            n,
            |r: int|
                tall_left::<real, real>(lanes, cols, n, sweeps, r, i) * tall_left::<real, real>(
                    lanes,
                    cols,
                    n,
                    sweeps,
                    r,
                    i2,
                ),
        ) == left_inner(
            lanes,
            reduced_state::<real, real>(lanes, cols, n, sweeps),
            cols.len() as int,
            i,
            i2,
        ),
{
    let m = cols.len() as int;
    let st = reduced_state::<real, real>(lanes, cols, n, sweeps);
    let q = qr_q(lanes, cols, n);
    let f = |c: int| left_entry(lanes, st, m, c, i);
    let g = |c: int| left_entry(lanes, st, m, c, i2);
    let x = Seq::new(n as nat, |r: int| tall_left::<real, real>(lanes, cols, n, sweeps, r, i));
    let y = Seq::new(n as nat, |r: int| tall_left::<real, real>(lanes, cols, n, sweeps, r, i2));
    assert forall|c: int| 0 <= c < m implies (#[trigger] q[c]).len() == n by {
        law_q_orthonormal(lanes, cols, n, c, c);
    }
    assert forall|c: int, d: int| 0 <= c < m && 0 <= d < m implies inner(
        #[trigger] q[c],
        #[trigger] q[d],
    ) == delta(c, d) by {
        law_q_orthonormal(lanes, cols, n, c, d);
    }
    assert forall|r: int| 0 <= r < n implies #[trigger] x[r] == sum(
        m,
        |c: int| q[c][r] * f(c),
    ) by {
        lemma_tall_left(lanes, cols, n, sweeps, r, i);
        lemma_sum_ext(
            m,
            |c: int| q[c][r] * f(c),
            |c: int| q[c][r] * left_entry(lanes, st, m, c, i),
        );
    }
    assert forall|r: int| 0 <= r < n implies #[trigger] y[r] == sum(
        m,
        |c: int| q[c][r] * g(c),
    ) by {
        lemma_tall_left(lanes, cols, n, sweeps, r, i2);
        lemma_sum_ext(
            m,
            |c: int| q[c][r] * g(c),
            |c: int| q[c][r] * left_entry(lanes, st, m, c, i2),
        );
    }
    lemma_isometry(q, f, x, g, y);
    let a = |r: int| x[r] * y[r];
    let b = |r: int|
        tall_left::<real, real>(lanes, cols, n, sweeps, r, i) * tall_left::<real, real>(
            lanes,
            cols,
            n,
            sweeps,
            r,
            i2,
        );
    lemma_sum_ext(n, a, b);
    lemma_sum_ext(
        m,
        |c: int| f(c) * g(c),
        |c: int| left_entry(lanes, st, m, c, i) * left_entry(lanes, st, m, c, i2),
    );
}

/// An entry of a left singular vector as a sum.
proof fn lemma_tall_left(
    lanes: bool,
    cols: Seq<Seq<real>>,
    n: int,
    sweeps: int,
    r: int,
    i: int,
)
    ensures
        tall_left::<real, real>(lanes, cols, n, sweeps, r, i) == sum(
            cols.len() as int,
            |c: int|
                qr_q(lanes, cols, n)[c][r] * left_entry(
                    lanes,
                    reduced_state::<real, real>(lanes, cols, n, sweeps),
                    cols.len() as int,
                    c,
                    i,
                ),
        ),
{
    let m = cols.len() as int;
    let st = reduced_state::<real, real>(lanes, cols, n, sweeps);
    let x = Seq::new(m as nat, |c: int| qr_q(lanes, cols, n)[c][r]);
    let y = Seq::new(m as nat, |c: int| left_entry(lanes, st, m, c, i).narrowed());
    lemma_lane_dot(x, y);
    lemma_sum_ext(
        m,
        |c: int| x[c] * y[c],
        |c: int| qr_q(lanes, cols, n)[c][r] * left_entry(lanes, st, m, c, i),
    );
}

/// The left singular vectors of a tall matrix have length 1, whatever its rank; when the sweeps
/// have settled all pairs, they are orthogonal up to the threshold.
pub proof fn law_tall_left_orthonormal(
    lanes: bool,
    cols: Seq<Seq<real>>,
    n: int,
    sweeps: int,
    i: int,
    i2: int,
)
    requires
        roots_exist(),
        tall(cols, n),
        cols.len() <= n,
        0 <= i < cols.len(),
        0 <= i2 < cols.len(),
    ensures
        ({
            let product = sum(
                n,
                |r: int|
                    tall_left::<real, real>(lanes, cols, n, sweeps, r, i) * tall_left::<real, real>(
                        lanes,
                        cols,
                        n,
                        sweeps,
                        r,
                        i2,
                    ),
            );
            let eps = real::tenth_pow(JACOBI_PLACES);
            &&& i == i2 ==> product == 1real
            &&& i != i2 && all_settled(
                lanes,
                reduced_state::<real, real>(lanes, cols, n, sweeps),
            ) ==> -eps <= product <= eps
        }),
{
    let m = cols.len() as int;
    let square = square_r(lanes, cols, n);
    law_tall_left(lanes, cols, n, sweeps, i, i2);
    if i == i2 {
        law_left_unit(lanes, square, m, m, sweeps, i);
    } else if all_settled(lanes, reduced_state::<real, real>(lanes, cols, n, sweeps)) {
        law_left_orthogonal(lanes, square, m, m, sweeps, i, i2);
    }
}

/// What the first `kk` triplets of a tall matrix leave of entry `r` of column `j`.
pub open spec fn tall_missing(
    lanes: bool,
    cols: Seq<Seq<real>>,
    n: int,
    sweeps: int,
    kk: int,
    r: int,
    j: int,
) -> real {
    let st = reduced_state::<real, real>(lanes, cols, n, sweeps);
    cols[j][r] - sum(
        kk,
        |i: int|
            tall_left::<real, real>(lanes, cols, n, sweeps, r, i) * singular_value(st, i)
                * right_entry(st, j, i),
    )
}

/// What the first `kk` triplets leave of a tall matrix is as large as the singular values that
/// were left out: the squares of its entries add up to their squares.
pub proof fn law_tall_truncation(lanes: bool, cols: Seq<Seq<real>>, n: int, sweeps: int, kk: int)
    requires
        roots_exist(),
        tall(cols, n),
        cols.len() <= n,
        0 <= kk <= cols.len(),
    ensures
        ({
            let m = cols.len() as int;
            let st = reduced_state::<real, real>(lanes, cols, n, sweeps);
            sum(
                n,
                |r: int|
                    sum(
                        m,
                        |j: int|
                            tall_missing(lanes, cols, n, sweeps, kk, r, j) * tall_missing(
                                lanes,
                                cols,
                                n,
                                sweeps,
                                kk,
                                r,
                                j,
                            ),
                    ),
            ) == sum(m - kk, |i: int| singular_value(st, kk + i) * singular_value(st, kk + i))
        }),
{
    let m = cols.len() as int;
    let st = reduced_state::<real, real>(lanes, cols, n, sweeps);
    let d = m - kk;
    let left = |r: int, i: int| tall_left::<real, real>(lanes, cols, n, sweeps, r, kk + i);
    let s = |i: int| singular_value(st, kk + i);
    let vs = Seq::new(
        d as nat,
        |i: int| Seq::new(m as nat, |j: int| right_entry(st, j, kk + i)),
    );
    let coef = |i: int, r: int| left(r, i) * s(i);
    assert forall|i: int, j: int| 0 <= i < d && 0 <= j < d implies inner(
        #[trigger] vs[i],
        #[trigger] vs[j],
    ) == delta(i, j) by {
        law_tall_right(lanes, cols, n, sweeps, kk + i, kk + j);
        lemma_sum_ext(
            m,
            |c: int| vs[i][c] * vs[j][c],
            |c: int| right_entry(st, c, kk + i) * right_entry(st, c, kk + j),
        );
    }
    assert forall|i: int| 0 <= i < d implies sum(n, |r: int| coef(i, r) * coef(i, r))
        == #[trigger] s(i) * s(i) by {
        law_tall_left_orthonormal(lanes, cols, n, sweeps, kk + i, kk + i);
        let ll = |r: int| left(r, i) * left(r, i);
        lemma_sum_ext(
            n,
            |r: int|
                tall_left::<real, real>(lanes, cols, n, sweeps, r, kk + i) * tall_left::<
                    real,
                    real,
                >(lanes, cols, n, sweeps, r, kk + i),
            ll,
        );
        let ss = s(i) * s(i);
        lemma_sum_scale(n, ll, ss);
        let f = |r: int| coef(i, r) * coef(i, r);
        let g = |r: int| ss * ll(r);
        assert forall|r: int| 0 <= r < n implies #[trigger] f(r) == g(r) by {
            lemma_regroup(left(r, i), s(i), left(r, i), s(i));
            lemma_comm(ll(r), ss);
        }
        lemma_sum_ext(n, f, g);
        lemma_one(ss);
    }
    lemma_energy(n, vs, m, coef, s);
    let by_row = |r: int|
        sum(
            m,
            |j: int|
                tall_missing(lanes, cols, n, sweeps, kk, r, j) * tall_missing(
                    lanes,
                    cols,
                    n,
                    sweeps,
                    kk,
                    r,
                    j,
                ),
        );
    let by_vector = |r: int|
        sum(
            m,
            |j: int|
                {
                    let x = sum(vs.len() as int, |i: int| vs[i][j] * coef(i, r));
                    x * x
                },
        );
    assert forall|r: int| 0 <= r < n implies #[trigger] by_row(r) == by_vector(r) by {
        let f = |j: int|
            tall_missing(lanes, cols, n, sweeps, kk, r, j) * tall_missing(
                lanes,
                cols,
                n,
                sweeps,
                kk,
                r,
                j,
            );
        let g = |j: int|
            {
                let x = sum(vs.len() as int, |i: int| vs[i][j] * coef(i, r));
                x * x
            };
        assert forall|j: int| 0 <= j < m implies #[trigger] f(j) == g(j) by {
            law_tall_product(lanes, cols, n, sweeps, kk, r, j);
            let term = |i: int|
                tall_left::<real, real>(lanes, cols, n, sweeps, r, i) * singular_value(st, i)
                    * right_entry(st, j, i);
            let rest = |i: int| term(kk + i);
            let h = |i: int| vs[i][j] * coef(i, r);
            assert forall|i: int| 0 <= i < d implies #[trigger] rest(i) == h(i) by {
                lemma_comm(coef(i, r), vs[i][j]);
            }
            lemma_sum_ext(d, rest, h);
        }
        lemma_sum_ext(m, f, g);
    }
    lemma_sum_ext(n, by_row, by_vector);
    lemma_sum_ext(
        d,
        |i: int| s(i) * s(i),
        |i: int| singular_value(st, kk + i) * singular_value(st, kk + i),
    );
}

} // verus!
