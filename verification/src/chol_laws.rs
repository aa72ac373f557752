//! What the Cholesky route is in exact arithmetic: the same factors as the Householder route.

use crate::algebra::{
    lemma_cancel, lemma_comm, lemma_inverse, lemma_negate, lemma_no_divisors, lemma_not_negative,
    lemma_over_times, lemma_spread, lemma_spread_sub, lemma_zero,
};
use crate::cholesky::{chol_acc, chol_at, solve_acc, solve_at, FLOOR_PLACES};
use crate::exact::{inner, lemma_root, lemma_sum_ext, lemma_sum_short, sum};
use crate::grid::cell;
use crate::house::{qr_q, qr_r, tall};
use crate::qr_laws::{law_qr_product, law_r_triangular};
use crate::scalar::{roots_exist, Number};
use crate::unique_laws::{lemma_factored, lemma_gram};
use vstd::arithmetic::power::{lemma_pow_positive, pow};
use vstd::prelude::*;

verus! {

/// The floor of a diagonal square lies above 0.
pub proof fn lemma_tenth_positive(n: u32)
    ensures
        real::tenth_pow(n) > 0real,
{
    lemma_pow_positive(10, n as nat);
    let x = pow(10, n as nat) as real;
    assert(x > 0real);
    lemma_inverse(x);
    let i = 1real / x;
    if i <= 0real {
        lemma_not_negative(-i, x);
        lemma_negate(i, x);
    }
}

/// The square of diagonal entry `j` is large enough to be kept as it is.
pub open spec fn kept(g: Seq<real>, k: int, j: int) -> bool {
    real::tenth_pow(FLOOR_PLACES) <= chol_acc(g, k, j, j, j)
}

/// What is left of `g(j, i)`.
pub proof fn lemma_chol_acc(g: Seq<real>, k: int, j: int, i: int, l: int)
    requires
        0 <= l,
    ensures
        chol_acc(g, k, j, i, l) == g[cell(j, k, i)] - sum(
            l,
            |x: int| chol_at(g, k, x, j) * chol_at(g, k, x, i),
        ),
    decreases l,
{
    let f = |x: int| chol_at(g, k, x, j) * chol_at(g, k, x, i);
    if l > 0 {
        lemma_chol_acc(g, k, j, i, l - 1);
        assert(sum(l, f) == sum(l - 1, f) + f(l - 1));
    } else {
        assert(sum(0, f) == 0real);
    }
}

/// The diagonal of the Cholesky factor is positive, for every matrix.
pub proof fn law_cholesky_positive(g: Seq<real>, k: int, j: int)
    requires
        roots_exist(),
        0 <= j < k,
    ensures
        chol_at(g, k, j, j) > 0real,
{
    lemma_tenth_positive(FLOOR_PLACES);
    lemma_root(chol_acc(g, k, j, j, j).larger(real::tenth_pow(FLOOR_PLACES)));
}

/// The Cholesky factor multiplies back to the matrix, `R^T R = G`, wherever the diagonal square
/// was kept.
pub proof fn law_cholesky(g: Seq<real>, k: int, j: int, i: int)
    requires
        roots_exist(),
        0 <= j <= i < k,
        kept(g, k, j),
    ensures
        sum(j + 1, |l: int| chol_at(g, k, l, j) * chol_at(g, k, l, i)) == g[cell(j, k, i)],
{
    lemma_tenth_positive(FLOOR_PLACES);
    let square = chol_acc(g, k, j, j, j);
    lemma_root(square);
    let d = chol_at(g, k, j, j);
    assert(d == square.root());
    let f = |l: int| chol_at(g, k, l, j) * chol_at(g, k, l, i);
    lemma_chol_acc(g, k, j, i, j);
    assert(sum(j + 1, f) == sum(j, f) + f(j));
    if i != j {
        let rest = chol_acc(g, k, j, i, j);
        lemma_over_times(rest, d);
        lemma_comm(rest / d, d);
    }
}

/// What is left of an entry of the row.
pub proof fn lemma_solve_acc(a: Seq<real>, r: Seq<real>, k: int, j: int, i: int)
    requires
        0 <= i,
    ensures
        solve_acc(a, r, k, j, i) == a[j] - sum(
            i,
            |x: int| solve_at(a, r, k, x) * r[cell(x, k, j)],
        ),
    decreases i,
{
    let f = |x: int| solve_at(a, r, k, x) * r[cell(x, k, j)];
    if i > 0 {
        lemma_solve_acc(a, r, k, j, i - 1);
        lemma_comm(solve_at(a, r, k, i - 1), r[cell(i - 1, k, j)]);
        assert(sum(i, f) == sum(i - 1, f) + f(i - 1));
    } else {
        assert(sum(0, f) == 0real);
    }
}

/// Forward substitution solves the system: `q R = a`, where the diagonal of `R` is not 0.
pub proof fn law_qsolve(a: Seq<real>, r: Seq<real>, k: int, j: int)
    requires
        0 <= j < k,
        r[cell(j, k, j)] != 0real,
    ensures
        sum(j + 1, |i: int| solve_at(a, r, k, i) * r[cell(i, k, j)]) == a[j],
{
    let f = |i: int| solve_at(a, r, k, i) * r[cell(i, k, j)];
    lemma_solve_acc(a, r, k, j, j);
    lemma_over_times(solve_acc(a, r, k, j, j), r[cell(j, k, j)]);
    assert(sum(j + 1, f) == sum(j, f) + f(j));
}

/// `g` holds the inner products of the columns.
pub open spec fn is_gram(g: Seq<real>, cols: Seq<Seq<real>>) -> bool {
    forall|j: int, i: int|
        0 <= j < cols.len() && 0 <= i < cols.len() ==> #[trigger] g[cell(
            j,
            cols.len() as int,
            i,
        )] == inner(cols[j], cols[i])
}

/// Two nonnegative numbers with one square.
pub proof fn lemma_root_unique(a: real, b: real)
    requires
        a >= 0real,
        b >= 0real,
        a * a == b * b,
    ensures
        a == b,
{
    lemma_spread(a - b, a, b);
    lemma_spread_sub(a, a, b);
    lemma_spread_sub(b, a, b);
    lemma_comm(a, b);
    lemma_comm(a - b, a);
    lemma_comm(a - b, b);
    lemma_no_divisors(a - b, a + b);
}

/// The inner products of the columns, by the triangular factor.
proof fn lemma_gram_r(lanes: bool, cols: Seq<Seq<real>>, m: int, l: int, i: int)
    requires
        roots_exist(),
        tall(cols, m),
        cols.len() <= m,
        0 <= l <= i < cols.len(),
    ensures
        inner(cols[l], cols[i]) == sum(
            l + 1,
            |c: int| qr_r(lanes, cols, m, c, l) * qr_r(lanes, cols, m, c, i),
        ),
{
    let r = |c: int, j: int| qr_r(lanes, cols, m, c, j);
    lemma_factored(lanes, cols, m);
    lemma_gram(cols, m, qr_q(lanes, cols, m), r, l, i);
    lemma_sum_ext(
        l + 1,
        |c: int| r(c, l) * r(c, i),
        |c: int| qr_r(lanes, cols, m, c, l) * qr_r(lanes, cols, m, c, i),
    );
}

/// The first `rows` rows of the two triangular factors agree.
proof fn lemma_r_agree(lanes: bool, cols: Seq<Seq<real>>, m: int, g: Seq<real>, rows: int)
    requires
        roots_exist(),
        tall(cols, m),
        cols.len() <= m,
        is_gram(g, cols),
        0 <= rows <= cols.len(),
        forall|j: int| 0 <= j < rows ==> #[trigger] kept(g, cols.len() as int, j),
    ensures
        forall|l: int, i: int|
            0 <= l < rows && l <= i < cols.len() ==> #[trigger] chol_at(g, cols.len() as int, l, i)
                == qr_r(lanes, cols, m, l, i),
    decreases rows,
{
    let n = cols.len() as int;
    if rows > 0 {
        let l = rows - 1;
        lemma_r_agree(lanes, cols, m, g, l);
        assert(kept(g, n, l));
        let d = qr_r(lanes, cols, m, l, l);
        law_r_triangular(lanes, cols, m, l, l);
        assert forall|i: int| l <= i < n implies d * qr_r(lanes, cols, m, l, i)
            == #[trigger] chol_acc(g, n, l, i, l) by {
            lemma_gram_r(lanes, cols, m, l, i);
            lemma_chol_acc(g, n, l, i, l);
            assert(g[cell(l, n, i)] == inner(cols[l], cols[i]));
            let f = |c: int| qr_r(lanes, cols, m, c, l) * qr_r(lanes, cols, m, c, i);
            let h = |x: int| chol_at(g, n, x, l) * chol_at(g, n, x, i);
            assert(sum(l + 1, f) == sum(l, f) + f(l));
            lemma_sum_ext(l, f, h);
        }
        let square = chol_acc(g, n, l, l, l);
        lemma_tenth_positive(FLOOR_PLACES);
        lemma_root(square);
        let e = chol_at(g, n, l, l);
        assert(e == square.root());
        lemma_root_unique(d, e);
        assert forall|i: int| l <= i < n implies #[trigger] chol_at(g, n, l, i) == qr_r(
            lanes,
            cols,
            m,
            l,
            i,
        ) by {
            if i > l {
                let rest = chol_acc(g, n, l, i, l);
                lemma_over_times(rest, e);
                lemma_comm(rest / e, e);
                lemma_cancel(e, rest / e, qr_r(lanes, cols, m, l, i));
            }
        }
    }
}

/// The two routes give one triangular factor: Cholesky of `A^T A` is the `R` of the Householder
/// factorisation of `A`.
pub proof fn law_same_r(lanes: bool, cols: Seq<Seq<real>>, m: int, g: Seq<real>, l: int, i: int)
    requires
        roots_exist(),
        tall(cols, m),
        cols.len() <= m,
        is_gram(g, cols),
        0 <= l <= i < cols.len(),
        forall|j: int| 0 <= j < cols.len() ==> #[trigger] kept(g, cols.len() as int, j),
    ensures
        chol_at(g, cols.len() as int, l, i) == qr_r(lanes, cols, m, l, i),
{
    lemma_r_agree(lanes, cols, m, g, cols.len() as int);
}

/// The two routes give one orthonormal factor: substitution with the Cholesky factor `rf` of
/// `A^T A` in row `r` of `A` gives row `r` of the `Q` of the Householder factorisation of `A`.
pub proof fn law_same_q(
    lanes: bool,
    cols: Seq<Seq<real>>,
    m: int,
    g: Seq<real>,
    rf: Seq<real>,
    line: Seq<real>,
    r: int,
    j: int,
)
    requires
        roots_exist(),
        tall(cols, m),
        cols.len() <= m,
        is_gram(g, cols),
        0 <= r < m,
        0 <= j < cols.len(),
        forall|c: int| 0 <= c < cols.len() ==> #[trigger] line[c] == cols[c][r],
        forall|c: int| 0 <= c < cols.len() ==> #[trigger] kept(g, cols.len() as int, c),
        forall|l: int, i: int|
            0 <= l <= i < cols.len() ==> #[trigger] rf[cell(l, cols.len() as int, i)] == chol_at(
                g,
                cols.len() as int,
                l,
                i,
            ),
    ensures
        solve_at(line, rf, cols.len() as int, j) == qr_q(lanes, cols, m)[j][r],
    decreases j,
{
    let n = cols.len() as int;
    let q = qr_q(lanes, cols, m);
    lemma_r_agree(lanes, cols, m, g, n);
    assert forall|c: int| 0 <= c < j implies #[trigger] solve_at(line, rf, n, c) == q[c][r] by {
        law_same_q(lanes, cols, m, g, rf, line, r, c);
    }
    assert(kept(g, n, j));
    law_cholesky_positive(g, n, j);
    let d = rf[cell(j, n, j)];
    assert(d == chol_at(g, n, j, j));
    law_qsolve(line, rf, n, j);
    law_qr_product(lanes, cols, m, r, j);
    let f = |c: int| qr_q(lanes, cols, m)[c][r] * qr_r(lanes, cols, m, c, j);
    let h = |i: int| solve_at(line, rf, n, i) * rf[cell(i, n, j)];
    assert forall|c: int| j + 1 <= c < n implies #[trigger] f(c) == 0real by {
        law_r_triangular(lanes, cols, m, c, j);
        lemma_zero(q[c][r]);
    }
    lemma_sum_short(n, j + 1, f);
    assert forall|c: int| 0 <= c < j implies #[trigger] f(c) == h(c) by {
        assert(rf[cell(c, n, j)] == chol_at(g, n, c, j));
        assert(solve_at(line, rf, n, c) == q[c][r]);
    }
    lemma_sum_ext(j, f, h);
    assert(sum(j + 1, f) == sum(j, f) + f(j));
    assert(sum(j + 1, h) == sum(j, h) + h(j));
    let (x, y) = (solve_at(line, rf, n, j), q[j][r]);
    assert(x * d == y * d);
    lemma_comm(x, d);
    lemma_comm(y, d);
    lemma_cancel(d, x, y);
}

} // verus!
