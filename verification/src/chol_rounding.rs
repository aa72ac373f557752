//! What rounding can do to the Cholesky route, in an arithmetic whose operations have a small
//! relative error.

use crate::algebra::lemma_comm;
use crate::chol_laws::lemma_tenth_positive;
use crate::cholesky::{chol_acc, chol_at, solve_acc, solve_at};
use crate::error_laws::{abs, accurate, lemma_abs_times};
use crate::exact::{lemma_root, lemma_sum_ext, sum};
use crate::grid::cell;
use crate::qr_rounding::{lemma_like_rounded, lemma_like_self, like, steady};
use crate::rounding_laws::{
    grown, held, lemma_grown, lemma_held_exact, lemma_held_minus, lemma_held_more,
};
use crate::scalar::{roots_exist, Number};
use vstd::prelude::*;

verus! {

/// What is left of an entry, rounded.
proof fn lemma_chol_acc_held<T: Number>(
    val: spec_fn(T) -> real,
    eps: real,
    g: Seq<T>,
    k: int,
    j: int,
    i: int,
    l: int,
)
    requires
        accurate(val, eps),
        0real <= eps,
        0 <= l,
    ensures
        held(
            val(chol_acc(g, k, j, i, l)),
            val(g[cell(j, k, i)]) - sum(
                l,
                |x: int| val(chol_at(g, k, x, j)) * val(chol_at(g, k, x, i)),
            ),
            abs(val(g[cell(j, k, i)])) + sum(
                l,
                |x: int| abs(val(chol_at(g, k, x, j))) * abs(val(chol_at(g, k, x, i))),
            ),
            grown(eps, l + 1),
        ),
    decreases l,
{
    let g0 = val(g[cell(j, k, i)]);
    let f = |x: int| val(chol_at(g, k, x, j)) * val(chol_at(g, k, x, i));
    let h = |x: int| abs(val(chol_at(g, k, x, j))) * abs(val(chol_at(g, k, x, i)));
    lemma_grown(eps, l);
    if l > 0 {
        lemma_chol_acc_held(val, eps, g, k, j, i, l - 1);
        let acc = chol_acc(g, k, j, i, l - 1);
        let (x, y) = (chol_at(g, k, l - 1, j), chol_at(g, k, l - 1, i));
        let p = x.times(y);
        lemma_abs_times(val(x), val(y));
        assert(held(val(p), val(x) * val(y), abs(val(x) * val(y)), eps));
        lemma_held_more(val(p), val(x) * val(y), abs(val(x) * val(y)), eps, grown(eps, l));
        lemma_held_minus(
            val(acc),
            g0 - sum(l - 1, f),
            abs(g0) + sum(l - 1, h),
            val(p),
            f(l - 1),
            h(l - 1),
            val(acc.minus(p)),
            grown(eps, l),
            eps,
        );
        assert(sum(l, f) == sum(l - 1, f) + f(l - 1));
        assert(sum(l, h) == sum(l - 1, h) + h(l - 1));
    } else {
        lemma_grown(eps, 1);
        lemma_held_exact(g0, grown(eps, 1));
        assert(sum(0, f) == 0real && sum(0, h) == 0real);
    }
}

/// `rest` is what is left of entry `(j, i)` of the matrix when the products of the rows of the factor
/// above row `j` are taken off, as far as rounding allows.
pub open spec fn is_rest<T: Number>(
    val: spec_fn(T) -> real,
    eps: real,
    g: Seq<T>,
    k: int,
    j: int,
    i: int,
    rest: real,
) -> bool {
    held(
        rest,
        val(g[j * k + i]) - sum(
            j,
            |x: int| val(chol_at(g, k, x, j)) * val(chol_at(g, k, x, i)),
        ),
        abs(val(g[j * k + i])) + sum(
            j,
            |x: int| abs(val(chol_at(g, k, x, j))) * abs(val(chol_at(g, k, x, i))),
        ),
        grown(eps, j + 1),
    )
}

/// The Cholesky factor, rounded. What is left of an entry of the matrix when the products of the
/// rows above are taken off is exact, up to `(1 + eps)^(j + 1) - 1` of the absolute values of its
/// terms; a diagonal entry agrees with the root of that, or of `10^-30` where that is larger, and
/// any other with the quotient of that and the diagonal entry, up to the factor of one operation.
pub proof fn law_cholesky_rounded<T: Number>(
    val: spec_fn(T) -> real,
    eps: real,
    b: real,
    g: Seq<T>,
    k: int,
    j: int,
    i: int,
)
    requires
        roots_exist(),
        steady(val, eps, b),
        0 <= j <= i < k,
    ensures
        exists|rest: real|
            {
                &&& #[trigger] is_rest(val, eps, g, k, j, i, rest)
                &&& val(chol_at(g, k, j, j)) > 0real
                &&& i > j ==> like(
                    val(chol_at(g, k, j, i)),
                    rest / val(chol_at(g, k, j, j)),
                    b,
                    1,
                )
                &&& i == j ==> like(
                    val(chol_at(g, k, j, j)),
                    (if rest < val(T::tenth_pow(30)) {
                        val(T::tenth_pow(30))
                    } else {
                        rest
                    }).root(),
                    b,
                    1,
                )
            },
{
    lemma_chol_acc_held(val, eps, g, k, j, i, j);
    let rest = val(chol_acc(g, k, j, i, j));
    // The diagonal.
    let acc = chol_acc(g, k, j, j, j);
    let floor = T::tenth_pow(30);
    lemma_tenth_positive(30);
    lemma_like_self(real::tenth_pow(30), b);
    lemma_like_rounded(
        val(floor),
        real::tenth_pow(30),
        real::tenth_pow(30),
        eps,
        b,
        0,
    );
    let top = acc.larger(floor);
    let t = val(top);
    assert(t > 0real);
    lemma_root(t);
    lemma_like_self(t.root(), b);
    assert(abs(t.root()) == t.root());
    lemma_like_rounded(val(top.root()), t.root(), t.root(), eps, b, 0);
    let d = val(chol_at(g, k, j, j));
    if i > j {
        let q = rest / d;
        lemma_like_self(q, b);
        lemma_like_rounded(val(chol_at(g, k, j, i)), q, q, eps, b, 0);
    }
    assert(is_rest(val, eps, g, k, j, i, rest));
}

/// What is left of an entry of a row, rounded.
proof fn lemma_solve_acc_held<T: Number>(
    val: spec_fn(T) -> real,
    eps: real,
    a: Seq<T>,
    r: Seq<T>,
    k: int,
    j: int,
    i: int,
)
    requires
        accurate(val, eps),
        0real <= eps,
        0 <= i,
    ensures
        held(
            val(solve_acc(a, r, k, j, i)),
            val(a[j]) - sum(i, |x: int| val(solve_at(a, r, k, x)) * val(r[cell(x, k, j)])),
            abs(val(a[j])) + sum(
                i,
                |x: int| abs(val(solve_at(a, r, k, x))) * abs(val(r[cell(x, k, j)])),
            ),
            grown(eps, i + 1),
        ),
    decreases i,
{
    let a0 = val(a[j]);
    let f = |x: int| val(solve_at(a, r, k, x)) * val(r[cell(x, k, j)]);
    let h = |x: int| abs(val(solve_at(a, r, k, x))) * abs(val(r[cell(x, k, j)]));
    lemma_grown(eps, i);
    if i > 0 {
        lemma_solve_acc_held(val, eps, a, r, k, j, i - 1);
        let acc = solve_acc(a, r, k, j, i - 1);
        let (x, y) = (r[cell(i - 1, k, j)], solve_at(a, r, k, i - 1));
        let p = x.times(y);
        lemma_comm(val(x), val(y));
        lemma_abs_times(val(y), val(x));
        assert(held(val(p), val(x) * val(y), abs(val(x) * val(y)), eps));
        lemma_held_more(val(p), val(x) * val(y), abs(val(x) * val(y)), eps, grown(eps, i));
        lemma_held_minus(
            val(acc),
            a0 - sum(i - 1, f),
            abs(a0) + sum(i - 1, h),
            val(p),
            f(i - 1),
            h(i - 1),
            val(acc.minus(p)),
            grown(eps, i),
            eps,
        );
        assert(sum(i, f) == sum(i - 1, f) + f(i - 1));
        assert(sum(i, h) == sum(i - 1, h) + h(i - 1));
    } else {
        lemma_grown(eps, 1);
        lemma_held_exact(a0, grown(eps, 1));
        assert(sum(0, f) == 0real && sum(0, h) == 0real);
    }
}

/// `rest` is what is left of entry `j` of the row when the products of the entries before it are
/// taken off, as far as rounding allows.
pub open spec fn is_row_rest<T: Number>(
    val: spec_fn(T) -> real,
    eps: real,
    a: Seq<T>,
    r: Seq<T>,
    k: int,
    j: int,
    rest: real,
) -> bool {
    held(
        rest,
        val(a[j]) - sum(j, |x: int| val(solve_at(a, r, k, x)) * val(r[x * k + j])),
        abs(val(a[j])) + sum(
            j,
            |x: int| abs(val(solve_at(a, r, k, x))) * abs(val(r[x * k + j])),
        ),
        grown(eps, j + 1),
    )
}

/// Forward substitution, rounded. What is left of an entry of the row when the products with the
/// entries before it are taken off is exact, up to `(1 + eps)^(j + 1) - 1` of the absolute values
/// of its terms, and the entry of the result agrees with the quotient of that and the diagonal
/// entry up to the factor of one operation.
pub proof fn law_qsolve_rounded<T: Number>(
    val: spec_fn(T) -> real,
    eps: real,
    b: real,
    a: Seq<T>,
    r: Seq<T>,
    k: int,
    j: int,
)
    requires
        steady(val, eps, b),
        0 <= j < k,
        val(r[j * k + j]) != 0real,
    ensures
        exists|rest: real|
            {
                &&& #[trigger] is_row_rest(val, eps, a, r, k, j, rest)
                &&& like(val(solve_at(a, r, k, j)), rest / val(r[j * k + j]), b, 1)
            },
{
    lemma_solve_acc_held(val, eps, a, r, k, j, j);
    let rest = val(solve_acc(a, r, k, j, j));
    let f = |x: int| val(solve_at(a, r, k, x)) * val(r[cell(x, k, j)]);
    let h = |x: int| abs(val(solve_at(a, r, k, x))) * abs(val(r[cell(x, k, j)]));
    lemma_sum_ext(j, f, |x: int| val(solve_at(a, r, k, x)) * val(r[x * k + j]));
    lemma_sum_ext(j, h, |x: int| abs(val(solve_at(a, r, k, x))) * abs(val(r[x * k + j])));
    let q = rest / val(r[j * k + j]);
    lemma_like_self(q, b);
    lemma_like_rounded(val(solve_at(a, r, k, j)), q, q, eps, b, 0);
    assert(is_row_rest(val, eps, a, r, k, j, rest));
}

} // verus!
