//! What the layer is in exact arithmetic.

use crate::algebra::{
    lemma_assoc, lemma_comm, lemma_no_divisors, lemma_one, lemma_square, lemma_zero,
};
use crate::best_laws::{law_tall_best, law_tall_best_any, outer_sum};
use crate::chol_laws::{is_gram, kept, law_same_q};
use crate::cholesky::{chol_at, solve_at};
use crate::dense::{
    law_tall_left_orthonormal, law_tall_product, law_tall_right, law_tall_truncation,
    lemma_place_of, reduced_state, tall_left, tall_missing,
};
use crate::error_laws::lemma_sum_cells;
use crate::exact::{
    delta, inner, lemma_root, lemma_sum_ext, lemma_sum_scale, lemma_sum_single,
    lemma_sum_swap, lemma_sum_zero, sum,
};
use crate::grid::{cell, columns, lemma_cell_bound, lemma_panel_bounds, panels};
use crate::house::{lesser, qr_q, tall};
use crate::layer::{
    deviates, deviates_through, factors_dense, passes, passes_through, running_sum, Factors,
    SctLinear,
};

use crate::outcome::Outcomes;
use crate::plan::is_gram_grid;
use crate::qr_laws::law_q_orthonormal;
use crate::scalar::{roots_exist, Number, WideNumber};
use crate::svd::{all_settled, right_entry, singular_value, Jacobi, JACOBI_PLACES};
use crate::sweep_laws::{all_apart, falls, law_tall_progress, tangle};
use crate::tensor::{unit_entry, Format, Grid};
use crate::unique_laws::law_qr_unique;
use vstd::prelude::*;

verus! {

/// Entry `(f, o)` of the weight `U diag(s) V^T`.
pub open spec fn weight(u: Grid<real>, s: Seq<real>, v: Grid<real>, f: int, o: int) -> real {
    sum(u.cols, |i: int| u.at(f, i) * s[i] * v.at(o, i))
}

/// The layer multiplies by its weight: `y = x W` with `W = U diag(s) V^T`.
pub proof fn law_forward(
    x: Grid<real>,
    u: Grid<real>,
    s: Seq<real>,
    v: Grid<real>,
    y: Grid<real>,
    b: int,
    o: int,
)
    requires
        x.wf(),
        u.wf(),
        v.wf(),
        x.cols == u.rows,
        u.cols == v.cols,
        s.len() == u.cols,
        passes(x, u, s, v, y),
        0 <= b < x.rows,
        0 <= o < v.rows,
    ensures
        y.at(b, o) == sum(u.rows, |f: int| x.at(b, f) * weight(u, s, v, f, o)),
{
    let (h, g) = choose|h: Grid<real>, g: Grid<real>| passes_through(x, u, s, v, h, g, y);
    let k = u.cols;
    let m = u.rows;
    // y is a sum over the triplets, and each term a sum over the inputs.
    let term = |i: int, f: int| x.at(b, f) * (u.at(f, i) * s[i] * v.at(o, i));
    let outer = |i: int| g.row(b)[i] * v.row(o)[i];
    let by_triplet = |i: int| sum(m, |f: int| term(i, f));
    assert(y.at(b, o) == sum(k, outer)) by {
        assert(real::dotted(g.row(b), v.row(o), y.at(b, o)));
    }
    assert forall|i: int| 0 <= i < k implies #[trigger] outer(i) == by_triplet(i) by {
        let (si, vi) = (s[i], v.at(o, i));
        let e = |f: int| x.row(b)[f] * u.column(i)[f];
        assert(real::dotted(x.row(b), u.column(i), h.at(b, i)));
        assert(real::product(h.at(b, i), si, g.at(b, i)));
        assert(h.at(b, i) == sum(m, e));
        let c = si * vi;
        lemma_assoc(h.at(b, i), si, vi);
        lemma_comm(h.at(b, i), c);
        lemma_sum_scale(m, e, c);
        let ce = |f: int| c * e(f);
        let t = |f: int| term(i, f);
        assert forall|f: int| 0 <= f < m implies #[trigger] ce(f) == t(f) by {
            let (xf, uf) = (x.at(b, f), u.at(f, i));
            lemma_comm(c, xf * uf);
            lemma_assoc(xf, uf, c);
            lemma_assoc(uf, si, vi);
        }
        lemma_sum_ext(m, ce, t);
    }
    lemma_sum_ext(k, outer, by_triplet);
    lemma_sum_swap(k, m, term);
    let by_input = |f: int| sum(k, |i: int| term(i, f));
    let want = |f: int| x.at(b, f) * weight(u, s, v, f, o);
    assert forall|f: int| 0 <= f < m implies #[trigger] by_input(f) == want(f) by {
        let e = |i: int| u.at(f, i) * s[i] * v.at(o, i);
        lemma_sum_scale(k, e, x.at(b, f));
        lemma_sum_ext(k, |i: int| x.at(b, f) * e(i), |i: int| term(i, f));
    }
    lemma_sum_ext(m, by_input, want);
}

/// Triplet `i` of the `n x m` matrix with the row-major buffer `a`, at output `o` and input `f`.
pub open spec fn dense_triplet(
    lanes: bool,
    a: Seq<real>,
    n: int,
    m: int,
    iters: int,
    o: int,
    f: int,
    i: int,
) -> real {
    if n >= m {
        let cols = columns(a, n, m);
        let st = reduced_state::<real, real>(lanes, cols, n, iters);
        tall_left::<real, real>(lanes, cols, n, iters, o, i) * singular_value(st, i) * right_entry(
            st,
            f,
            i,
        )
    } else {
        let cols = panels(a, m, n);
        let st = reduced_state::<real, real>(lanes, cols, m, iters);
        tall_left::<real, real>(lanes, cols, m, iters, f, i) * singular_value(st, i) * right_entry(
            st,
            o,
            i,
        )
    }
}

/// The weight of a layer that stands for a dense weight, by its triplets.
proof fn lemma_dense_weight(
    lanes: bool,
    a: Seq<real>,
    n: int,
    m: int,
    k: int,
    iters: int,
    fac: Factors<real>,
    u: Grid<real>,
    v: Grid<real>,
    o: int,
    f: int,
)
    requires
        0 <= k <= lesser(m, n),
        factors_dense::<real, real>(lanes, a, n, m, k, iters, fac),
        u.sized(m, k),
        u.cells == fac.u,
        v.sized(n, k),
        v.cells == fac.v,
        0 <= o < n,
        0 <= f < m,
        a.len() == n * m,
    ensures
        a[cell(o, m, f)] - weight(u, fac.s, v, f, o) == if n >= m {
            tall_missing(lanes, columns(a, n, m), n, iters, k, o, f)
        } else {
            tall_missing(lanes, panels(a, m, n), m, iters, k, f, o)
        },
{
    let w = |i: int| u.at(f, i) * fac.s[i] * v.at(o, i);
    if n >= m {
        let cols = columns(a, n, m);
        let st = reduced_state::<real, real>(lanes, cols, n, iters);
        assert(cols[f][o] == a[cell(o, m, f)]);
        let term = |i: int|
            tall_left::<real, real>(lanes, cols, n, iters, o, i) * singular_value(st, i)
                * right_entry(st, f, i);
        assert forall|i: int| 0 <= i < k implies #[trigger] term(i) == w(i) by {
            assert(fac.u[cell(f, k, i)] == right_entry(st, f, i).narrowed());
            assert(fac.v[cell(o, k, i)] == tall_left::<real, real>(lanes, cols, n, iters, o, i));
            assert(fac.s[i] == singular_value(st, i).narrowed());
            lemma_reverse(v.at(o, i), fac.s[i], u.at(f, i));
        }
        lemma_sum_ext(k, term, w);
    } else {
        let cols = panels(a, m, n);
        let st = reduced_state::<real, real>(lanes, cols, m, iters);
        lemma_panel_bounds(m, n, o);
        assert(cols[o][f] == a[cell(o, m, f)]);
        let term = |i: int|
            tall_left::<real, real>(lanes, cols, m, iters, f, i) * singular_value(st, i)
                * right_entry(st, o, i);
        assert forall|i: int| 0 <= i < k implies #[trigger] term(i) == w(i) by {
            assert(fac.v[cell(o, k, i)] == right_entry(st, o, i).narrowed());
            assert(fac.u[cell(f, k, i)] == tall_left::<real, real>(lanes, cols, m, iters, f, i));
            assert(fac.s[i] == singular_value(st, i).narrowed());
        }
        lemma_sum_ext(k, term, w);
    }
}

/// The layer that stands for a dense weight holds it: its weight and the triplets that were left
/// out are the dense weight. At full rank nothing is left out.
pub proof fn law_dense_weight(
    lanes: bool,
    a: Seq<real>,
    n: int,
    m: int,
    k: int,
    iters: int,
    fac: Factors<real>,
    u: Grid<real>,
    v: Grid<real>,
    o: int,
    f: int,
)
    requires
        roots_exist(),
        a.len() == n * m,
        0 <= k <= lesser(m, n),
        factors_dense::<real, real>(lanes, a, n, m, k, iters, fac),
        u.sized(m, k),
        u.cells == fac.u,
        v.sized(n, k),
        v.cells == fac.v,
        0 <= o < n,
        0 <= f < m,
    ensures
        a[cell(o, m, f)] == weight(u, fac.s, v, f, o) + sum(
            lesser(m, n) - k,
            |i: int| dense_triplet(lanes, a, n, m, iters, o, f, k + i),
        ),
        k == lesser(m, n) ==> a[cell(o, m, f)] == weight(u, fac.s, v, f, o),
{
    let full = lesser(m, n);
    let dropped = |i: int| dense_triplet(lanes, a, n, m, iters, o, f, k + i);
    lemma_dense_weight(lanes, a, n, m, k, iters, fac, u, v, o, f);
    if n >= m {
        let cols = columns(a, n, m);
        let st = reduced_state::<real, real>(lanes, cols, n, iters);
        law_tall_product(lanes, cols, n, iters, k, o, f);
        assert(cols[f][o] == a[cell(o, m, f)]);
        let term = |i: int|
            tall_left::<real, real>(lanes, cols, n, iters, o, i) * singular_value(st, i)
                * right_entry(st, f, i);
        lemma_sum_ext(full - k, |i: int| term(k + i), dropped);
    } else {
        let cols = panels(a, m, n);
        assert forall|j: int| 0 <= j < n implies (#[trigger] cols[j]).len() == m by {
            lemma_panel_bounds(m, n, j);
        }
        let st = reduced_state::<real, real>(lanes, cols, m, iters);
        law_tall_product(lanes, cols, m, iters, k, f, o);
        lemma_panel_bounds(m, n, o);
        assert(cols[o][f] == a[cell(o, m, f)]);
        let term = |i: int|
            tall_left::<real, real>(lanes, cols, m, iters, f, i) * singular_value(st, i)
                * right_entry(st, o, i);
        lemma_sum_ext(full - k, |i: int| term(k + i), dropped);
    }
    assert(sum(0, dropped) == 0real);
}

/// The state after the sweeps over the triangular factor of the `n x m` matrix with the row-major
/// buffer `a`, or of its transpose where it is wide.
pub open spec fn dense_state(
    lanes: bool,
    a: Seq<real>,
    n: int,
    m: int,
    iters: int,
) -> Jacobi<real> {
    if n >= m {
        reduced_state::<real, real>(lanes, columns(a, n, m), n, iters)
    } else {
        reduced_state::<real, real>(lanes, panels(a, m, n), m, iters)
    }
}

/// What the layer that stands for a dense weight of `n` outputs and `m` inputs misses of it is as
/// large as the singular values that were left out: the squares of the differences between the
/// weights add up to their squares.
pub proof fn law_dense_truncation(
    lanes: bool,
    a: Seq<real>,
    n: int,
    m: int,
    k: int,
    iters: int,
    fac: Factors<real>,
    u: Grid<real>,
    v: Grid<real>,
)
    requires
        roots_exist(),
        a.len() == n * m,
        0 <= k <= lesser(m, n),
        factors_dense::<real, real>(lanes, a, n, m, k, iters, fac),
        u.sized(m, k),
        u.cells == fac.u,
        v.sized(n, k),
        v.cells == fac.v,
    ensures
        ({
            let st = dense_state(lanes, a, n, m, iters);
            sum(
                n,
                |o: int|
                    sum(
                        m,
                        |f: int|
                            (a[cell(o, m, f)] - weight(u, fac.s, v, f, o)) * (a[cell(o, m, f)]
                                - weight(u, fac.s, v, f, o)),
                    ),
            ) == sum(
                lesser(m, n) - k,
                |i: int| singular_value(st, k + i) * singular_value(st, k + i),
            )
        }),
{
    let full = lesser(m, n);
    let gap = |o: int, f: int|
        (a[cell(o, m, f)] - weight(u, fac.s, v, f, o)) * (a[cell(o, m, f)] - weight(
            u,
            fac.s,
            v,
            f,
            o,
        ));
    let whole = |o: int|
        sum(
            m,
            |f: int|
                (a[cell(o, m, f)] - weight(u, fac.s, v, f, o)) * (a[cell(o, m, f)] - weight(
                    u,
                    fac.s,
                    v,
                    f,
                    o,
                )),
        );
    let by_output = |o: int| sum(m, |f: int| gap(o, f));
    assert forall|o: int| 0 <= o < n implies #[trigger] whole(o) == by_output(o) by {
        lemma_sum_ext(
            m,
            |f: int|
                (a[cell(o, m, f)] - weight(u, fac.s, v, f, o)) * (a[cell(o, m, f)] - weight(
                    u,
                    fac.s,
                    v,
                    f,
                    o,
                )),
            |f: int| gap(o, f),
        );
    }
    lemma_sum_ext(n, whole, by_output);
    if n >= m {
        let cols = columns(a, n, m);
        law_tall_truncation(lanes, cols, n, iters, k);
        let missed = |o: int|
            sum(
                m,
                |f: int|
                    tall_missing(lanes, cols, n, iters, k, o, f) * tall_missing(
                        lanes,
                        cols,
                        n,
                        iters,
                        k,
                        o,
                        f,
                    ),
            );
        assert forall|o: int| 0 <= o < n implies #[trigger] by_output(o) == missed(o) by {
            let g = |f: int|
                tall_missing(lanes, cols, n, iters, k, o, f) * tall_missing(
                    lanes,
                    cols,
                    n,
                    iters,
                    k,
                    o,
                    f,
                );
            let e = |f: int| gap(o, f);
            assert forall|f: int| 0 <= f < m implies #[trigger] e(f) == g(f) by {
                lemma_dense_weight(lanes, a, n, m, k, iters, fac, u, v, o, f);
            }
            lemma_sum_ext(m, e, g);
        }
        lemma_sum_ext(n, by_output, missed);
    } else {
        let cols = panels(a, m, n);
        assert forall|j: int| 0 <= j < n implies (#[trigger] cols[j]).len() == m by {
            lemma_panel_bounds(m, n, j);
        }
        law_tall_truncation(lanes, cols, m, iters, k);
        lemma_sum_swap(n, m, gap);
        let by_input = |f: int| sum(n, |o: int| gap(o, f));
        let missed = |f: int|
            sum(
                n,
                |o: int|
                    tall_missing(lanes, cols, m, iters, k, f, o) * tall_missing(
                        lanes,
                        cols,
                        m,
                        iters,
                        k,
                        f,
                        o,
                    ),
            );
        assert forall|f: int| 0 <= f < m implies #[trigger] by_input(f) == missed(f) by {
            let g = |o: int|
                tall_missing(lanes, cols, m, iters, k, f, o) * tall_missing(
                    lanes,
                    cols,
                    m,
                    iters,
                    k,
                    f,
                    o,
                );
            let e = |o: int| gap(o, f);
            assert forall|o: int| 0 <= o < n implies #[trigger] e(o) == g(o) by {
                lemma_dense_weight(lanes, a, n, m, k, iters, fac, u, v, o, f);
            }
            lemma_sum_ext(n, e, g);
        }
        lemma_sum_ext(m, by_input, missed);
    }
}

/// The squares of what the products of `xs` and `ys` miss of the `n x m` matrix with the row-major
/// buffer `a`.
pub open spec fn product_gap(
    a: Seq<real>,
    n: int,
    m: int,
    xs: Seq<Seq<real>>,
    ys: Seq<Seq<real>>,
) -> real {
    sum(
        n,
        |o: int|
            sum(
                m,
                |f: int|
                    (a[cell(o, m, f)] - outer_sum(xs, ys, o, f)) * (a[cell(o, m, f)] - outer_sum(
                        xs,
                        ys,
                        o,
                        f,
                    )),
            ),
    )
}

/// The layer that stands for a dense weight is the best of its rank: once all pairs are settled, no
/// sum of `k` products of a vector of `n` outputs and one of `m` inputs comes closer to the dense
/// weight than the weight of the layer, up to the threshold.
pub proof fn law_dense_best(
    lanes: bool,
    a: Seq<real>,
    n: int,
    m: int,
    k: int,
    iters: int,
    fac: Factors<real>,
    u: Grid<real>,
    v: Grid<real>,
    xs: Seq<Seq<real>>,
    ys: Seq<Seq<real>>,
)
    requires
        roots_exist(),
        a.len() == n * m,
        0 <= k <= lesser(m, n),
        factors_dense::<real, real>(lanes, a, n, m, k, iters, fac),
        u.sized(m, k),
        u.cells == fac.u,
        v.sized(n, k),
        v.cells == fac.v,
        xs.len() == k,
        ys.len() == k,
        tall(xs, n),
        tall(ys, m),
        all_settled(lanes, dense_state(lanes, a, n, m, iters)),
    ensures
        ({
            let st = dense_state(lanes, a, n, m, iters);
            sum(
                n,
                |o: int|
                    sum(
                        m,
                        |f: int|
                            (a[cell(o, m, f)] - weight(u, fac.s, v, f, o)) * (a[cell(o, m, f)]
                                - weight(u, fac.s, v, f, o)),
                    ),
            ) <= product_gap(a, n, m, xs, ys) + (real::tenth_pow(JACOBI_PLACES) * (lesser(
                m,
                n,
            ) as real)) * sum(k, |i: int| singular_value(st, i) * singular_value(st, i))
        }),
{
    let st = dense_state(lanes, a, n, m, iters);
    law_dense_truncation(lanes, a, n, m, k, iters, fac, u, v);
    let gap = |o: int, f: int|
        (a[cell(o, m, f)] - outer_sum(xs, ys, o, f)) * (a[cell(o, m, f)] - outer_sum(xs, ys, o, f));
    let whole = |o: int|
        sum(
            m,
            |f: int|
                (a[cell(o, m, f)] - outer_sum(xs, ys, o, f)) * (a[cell(o, m, f)] - outer_sum(
                    xs,
                    ys,
                    o,
                    f,
                )),
        );
    let by_output = |o: int| sum(m, |f: int| gap(o, f));
    assert forall|o: int| 0 <= o < n implies #[trigger] whole(o) == by_output(o) by {
        lemma_sum_ext(
            m,
            |f: int|
                (a[cell(o, m, f)] - outer_sum(xs, ys, o, f)) * (a[cell(o, m, f)] - outer_sum(
                    xs,
                    ys,
                    o,
                    f,
                )),
            |f: int| gap(o, f),
        );
    }
    lemma_sum_ext(n, whole, by_output);
    if n >= m {
        let cols = columns(a, n, m);
        law_tall_best(lanes, cols, n, iters, xs, ys);
        law_tall_truncation(lanes, cols, n, iters, k);
        let of_cols = |o: int|
            sum(
                m,
                |f: int|
                    (cols[f][o] - outer_sum(xs, ys, o, f)) * (cols[f][o] - outer_sum(xs, ys, o, f)),
            );
        assert forall|o: int| 0 <= o < n implies #[trigger] by_output(o) == of_cols(o) by {
            let e = |f: int| gap(o, f);
            let g = |f: int|
                (cols[f][o] - outer_sum(xs, ys, o, f)) * (cols[f][o] - outer_sum(xs, ys, o, f));
            assert forall|f: int| 0 <= f < m implies #[trigger] e(f) == g(f) by {
                assert(cols[f][o] == a[cell(o, m, f)]);
            }
            lemma_sum_ext(m, e, g);
        }
        lemma_sum_ext(n, by_output, of_cols);
    } else {
        let cols = panels(a, m, n);
        assert forall|j: int| 0 <= j < n implies (#[trigger] cols[j]).len() == m by {
            lemma_panel_bounds(m, n, j);
        }
        law_tall_best(lanes, cols, m, iters, ys, xs);
        law_tall_truncation(lanes, cols, m, iters, k);
        lemma_sum_swap(n, m, gap);
        let by_input = |f: int| sum(n, |o: int| gap(o, f));
        let of_cols = |f: int|
            sum(
                n,
                |o: int|
                    (cols[o][f] - outer_sum(ys, xs, f, o)) * (cols[o][f] - outer_sum(ys, xs, f, o)),
            );
        assert forall|f: int| 0 <= f < m implies #[trigger] by_input(f) == of_cols(f) by {
            let e = |o: int| gap(o, f);
            let g = |o: int|
                (cols[o][f] - outer_sum(ys, xs, f, o)) * (cols[o][f] - outer_sum(ys, xs, f, o));
            assert forall|o: int| 0 <= o < n implies #[trigger] e(o) == g(o) by {
                lemma_panel_bounds(m, n, o);
                assert(cols[o][f] == a[cell(o, m, f)]);
                let p = |t: int| xs[t][o] * ys[t][f];
                let q = |t: int| ys[t][f] * xs[t][o];
                assert forall|t: int| 0 <= t < k implies #[trigger] p(t) == q(t) by {
                    lemma_comm(xs[t][o], ys[t][f]);
                }
                lemma_sum_ext(k, p, q);
            }
            lemma_sum_ext(n, e, g);
        }
        lemma_sum_ext(m, by_input, of_cols);
    }
}

/// After any number of sweeps the layer that stands for a dense weight is the best of its rank, but
/// for how far the columns are from orthogonal: no sum of `k` products of a vector of `n` outputs
/// and one of `m` inputs comes closer to the dense weight than the weight of the layer, up to `k`
/// times the root of the tangle of the columns.
pub proof fn law_dense_best_any(
    lanes: bool,
    a: Seq<real>,
    n: int,
    m: int,
    k: int,
    iters: int,
    fac: Factors<real>,
    u: Grid<real>,
    v: Grid<real>,
    xs: Seq<Seq<real>>,
    ys: Seq<Seq<real>>,
)
    requires
        roots_exist(),
        a.len() == n * m,
        0 <= k <= lesser(m, n),
        factors_dense::<real, real>(lanes, a, n, m, k, iters, fac),
        u.sized(m, k),
        u.cells == fac.u,
        v.sized(n, k),
        v.cells == fac.v,
        xs.len() == k,
        ys.len() == k,
        tall(xs, n),
        tall(ys, m),
    ensures
        sum(
            n,
            |o: int|
                sum(
                    m,
                    |f: int|
                        (a[cell(o, m, f)] - weight(u, fac.s, v, f, o)) * (a[cell(o, m, f)] - weight(
                            u,
                            fac.s,
                            v,
                            f,
                            o,
                        )),
                ),
        ) <= product_gap(a, n, m, xs, ys) + (k as real) * tangle(
            dense_state(lanes, a, n, m, iters).a,
        ).root(),
{
    let st = dense_state(lanes, a, n, m, iters);
    law_dense_truncation(lanes, a, n, m, k, iters, fac, u, v);
    let gap = |o: int, f: int|
        (a[cell(o, m, f)] - outer_sum(xs, ys, o, f)) * (a[cell(o, m, f)] - outer_sum(xs, ys, o, f));
    let whole = |o: int|
        sum(
            m,
            |f: int|
                (a[cell(o, m, f)] - outer_sum(xs, ys, o, f)) * (a[cell(o, m, f)] - outer_sum(
                    xs,
                    ys,
                    o,
                    f,
                )),
        );
    let by_output = |o: int| sum(m, |f: int| gap(o, f));
    assert forall|o: int| 0 <= o < n implies #[trigger] whole(o) == by_output(o) by {
        lemma_sum_ext(
            m,
            |f: int|
                (a[cell(o, m, f)] - outer_sum(xs, ys, o, f)) * (a[cell(o, m, f)] - outer_sum(
                    xs,
                    ys,
                    o,
                    f,
                )),
            |f: int| gap(o, f),
        );
    }
    lemma_sum_ext(n, whole, by_output);
    if n >= m {
        let cols = columns(a, n, m);
        law_tall_best_any(lanes, cols, n, iters, xs, ys);
        law_tall_truncation(lanes, cols, n, iters, k);
        let of_cols = |o: int|
            sum(
                m,
                |f: int|
                    (cols[f][o] - outer_sum(xs, ys, o, f)) * (cols[f][o] - outer_sum(xs, ys, o, f)),
            );
        assert forall|o: int| 0 <= o < n implies #[trigger] by_output(o) == of_cols(o) by {
            let e = |f: int| gap(o, f);
            let g = |f: int|
                (cols[f][o] - outer_sum(xs, ys, o, f)) * (cols[f][o] - outer_sum(xs, ys, o, f));
            assert forall|f: int| 0 <= f < m implies #[trigger] e(f) == g(f) by {
                assert(cols[f][o] == a[cell(o, m, f)]);
            }
            lemma_sum_ext(m, e, g);
        }
        lemma_sum_ext(n, by_output, of_cols);
    } else {
        let cols = panels(a, m, n);
        assert forall|j: int| 0 <= j < n implies (#[trigger] cols[j]).len() == m by {
            lemma_panel_bounds(m, n, j);
        }
        law_tall_best_any(lanes, cols, m, iters, ys, xs);
        law_tall_truncation(lanes, cols, m, iters, k);
        lemma_sum_swap(n, m, gap);
        let by_input = |f: int| sum(n, |o: int| gap(o, f));
        let of_cols = |f: int|
            sum(
                n,
                |o: int|
                    (cols[o][f] - outer_sum(ys, xs, f, o)) * (cols[o][f] - outer_sum(ys, xs, f, o)),
            );
        assert forall|f: int| 0 <= f < m implies #[trigger] by_input(f) == of_cols(f) by {
            let e = |o: int| gap(o, f);
            let g = |o: int|
                (cols[o][f] - outer_sum(ys, xs, f, o)) * (cols[o][f] - outer_sum(ys, xs, f, o));
            assert forall|o: int| 0 <= o < n implies #[trigger] e(o) == g(o) by {
                lemma_panel_bounds(m, n, o);
                assert(cols[o][f] == a[cell(o, m, f)]);
                let p = |t: int| xs[t][o] * ys[t][f];
                let q = |t: int| ys[t][f] * xs[t][o];
                assert forall|t: int| 0 <= t < k implies #[trigger] p(t) == q(t) by {
                    lemma_comm(xs[t][o], ys[t][f]);
                }
                lemma_sum_ext(k, p, q);
            }
            lemma_sum_ext(n, e, g);
        }
        lemma_sum_ext(m, by_input, of_cols);
    }
}

/// Every sweep that is asked for makes progress with a dense weight: where all pairs of columns are
/// orthogonal, up to `10^-12` of their lengths, it changes nothing; where they are not, the tangle
/// falls, by twice the square of the inner product of some pair that was not.
pub proof fn law_dense_progress(lanes: bool, a: Seq<real>, n: int, m: int, iters: int)
    requires
        roots_exist(),
        0 <= n,
        0 <= m,
        0 <= iters,
    ensures
        ({
            let before = dense_state(lanes, a, n, m, iters);
            let after = dense_state(lanes, a, n, m, iters + 1);
            &&& before.a.len() == lesser(m, n)
            &&& all_apart(before.a) ==> after == before
            &&& !all_apart(before.a) ==> falls(before.a, after.a) && tangle(after.a) < tangle(
                before.a,
            )
        }),
{
    if n >= m {
        law_tall_progress(lanes, columns(a, n, m), n, iters);
    } else {
        law_tall_progress(lanes, panels(a, m, n), m, iters);
    }
}

/// The factors of the layer that stands for a dense weight have orthonormal columns, whatever the
/// rank of the weight: those that are right singular vectors exactly; those that are left singular
/// vectors, of the weight or where it is wide of its transpose, have length 1 and, when the sweeps
/// have settled all pairs, are orthogonal up to the threshold.
pub proof fn law_dense_orthonormal(
    lanes: bool,
    a: Seq<real>,
    n: int,
    m: int,
    k: int,
    iters: int,
    fac: Factors<real>,
    u: Grid<real>,
    v: Grid<real>,
    i: int,
    j: int,
)
    requires
        roots_exist(),
        a.len() == n * m,
        k <= lesser(m, n),
        factors_dense::<real, real>(lanes, a, n, m, k, iters, fac),
        u.sized(m, k),
        u.cells == fac.u,
        v.sized(n, k),
        v.cells == fac.v,
        0 <= i < k,
        0 <= j < k,
    ensures
        ({
            let right = if n >= m {
                u
            } else {
                v
            };
            let left = if n >= m {
                v
            } else {
                u
            };
            let eps = real::tenth_pow(JACOBI_PLACES);
            let product = inner(left.column(i), left.column(j));
            &&& inner(right.column(i), right.column(j)) == delta(i, j)
            &&& i == j ==> product == 1real
            &&& i != j && all_settled(lanes, dense_state(lanes, a, n, m, iters)) ==> -eps <= product
                <= eps
        }),
{
    let (right, left, cols, rows) = if n >= m {
        (u, v, columns(a, n, m), n)
    } else {
        (v, u, panels(a, m, n), m)
    };
    let count = cols.len() as int;
    assert forall|c: int| 0 <= c < count implies (#[trigger] cols[c]).len() == rows by {
        if n < m {
            lemma_panel_bounds(m, n, c);
        }
    }
    let st = reduced_state::<real, real>(lanes, cols, rows, iters);
    law_tall_right(lanes, cols, rows, iters, i, j);
    law_tall_left_orthonormal(lanes, cols, rows, iters, i, j);
    let f = |r: int| right.column(i)[r] * right.column(j)[r];
    let g = |r: int| right_entry(st, r, i) * right_entry(st, r, j);
    assert forall|r: int| 0 <= r < count implies #[trigger] f(r) == g(r) by {
        assert(right.cells[cell(r, k, i)] == right_entry(st, r, i).narrowed());
        assert(right.cells[cell(r, k, j)] == right_entry(st, r, j).narrowed());
    }
    lemma_sum_ext(count, f, g);
    let p = |r: int| left.column(i)[r] * left.column(j)[r];
    let q = |r: int|
        tall_left::<real, real>(lanes, cols, rows, iters, r, i) * tall_left::<real, real>(
            lanes,
            cols,
            rows,
            iters,
            r,
            j,
        );
    assert forall|r: int| 0 <= r < rows implies #[trigger] p(r) == q(r) by {
        assert(left.cells[cell(r, k, i)] == tall_left::<real, real>(
            lanes,
            cols,
            rows,
            iters,
            r,
            i,
        ));
        assert(left.cells[cell(r, k, j)] == tall_left::<real, real>(
            lanes,
            cols,
            rows,
            iters,
            r,
            j,
        ));
    }
    lemma_sum_ext(rows, p, q);
}

/// Three factors in the reverse order.
proof fn lemma_reverse(a: real, b: real, c: real)
    ensures
        a * b * c == c * b * a,
{
    lemma_comm(a * b, c);
    lemma_comm(a, b);
    lemma_assoc(c, b, a);
}

/// At full rank the layer that stands for a dense weight gives what the dense layer gives:
/// `y[b][o]` is the sum over the inputs `f` of `x[b][f]` times `W[o][f]`.
pub proof fn law_dense_forward(
    lanes: bool,
    a: Seq<real>,
    n: int,
    m: int,
    iters: int,
    fac: Factors<real>,
    x: Grid<real>,
    u: Grid<real>,
    v: Grid<real>,
    y: Grid<real>,
    b: int,
    o: int,
)
    requires
        roots_exist(),
        0 <= n,
        0 <= m,
        a.len() == n * m,
        factors_dense::<real, real>(lanes, a, n, m, lesser(m, n), iters, fac),
        u.sized(m, lesser(m, n)),
        u.cells == fac.u,
        v.sized(n, lesser(m, n)),
        v.cells == fac.v,
        x.wf(),
        x.cols == m,
        passes(x, u, fac.s, v, y),
        0 <= b < x.rows,
        0 <= o < n,
    ensures
        y.at(b, o) == sum(m, |f: int| x.at(b, f) * a[cell(o, m, f)]),
{
    law_forward(x, u, fac.s, v, y, b, o);
    let lhs = |f: int| x.at(b, f) * weight(u, fac.s, v, f, o);
    let rhs = |f: int| x.at(b, f) * a[cell(o, m, f)];
    assert forall|f: int| 0 <= f < m implies #[trigger] lhs(f) == rhs(f) by {
        law_dense_weight(lanes, a, n, m, lesser(m, n), iters, fac, u, v, o, f);
    }
    lemma_sum_ext(m, lhs, rhs);
}

/// The columns of `m` are orthonormal.
pub open spec fn orthonormal(m: Grid<real>) -> bool {
    forall|i: int, j: int|
        0 <= i < m.cols && 0 <= j < m.cols ==> inner(
            #[trigger] m.column(i),
            #[trigger] m.column(j),
        ) == delta(i, j)
}

proof fn lemma_running_sum(xs: Seq<real>, n: int)
    requires
        0 <= n,
    ensures
        running_sum(0real, xs, n) == sum(n, |i: int| xs[i]),
    decreases n,
{
    if n > 0 {
        lemma_running_sum(xs, n - 1);
    }
}

/// A sum of numbers that are not negative.
proof fn lemma_sum_positive(n: int, f: spec_fn(int) -> real)
    requires
        0 <= n,
        forall|i: int| 0 <= i < n ==> #[trigger] f(i) >= 0real,
    ensures
        sum(n, f) >= 0real,
        sum(n, f) == 0real ==> forall|i: int| 0 <= i < n ==> #[trigger] f(i) == 0real,
    decreases n,
{
    if n > 0 {
        lemma_sum_positive(n - 1, f);
    }
}

/// The error is the Frobenius norm of `m^T m - I`: its square is the sum of the squares of what the
/// inner products of the columns differ by from those of orthonormal ones.
pub proof fn law_ortho_error_norm(m: Grid<real>, e: real)
    requires
        roots_exist(),
        m.wf(),
        deviates(|x: real| x, m, e),
    ensures
        e >= 0real,
        e * e == sum(
            m.cols,
            |i: int|
                sum(
                    m.cols,
                    |j: int|
                        (inner(m.column(i), m.column(j)) - delta(i, j)) * (inner(
                            m.column(i),
                            m.column(j),
                        ) - delta(i, j)),
                ),
        ),
{
    let read = |x: real| x;
    let k = m.cols;
    let (gram, diff, squares) = choose|gram: Grid<real>, diff: Grid<real>, squares: Grid<real>|
        #[trigger] deviates_through(m, gram, diff, squares) && e == running_sum(
            0real,
            squares.cells.map_values(read),
            squares.cells.len() as int,
        ).root();
    let n = squares.cells.len() as int;
    let xs = squares.cells.map_values(read);
    lemma_running_sum(xs, n);
    let f = |x: int| xs[x];
    lemma_sum_ext(n, f, |i: int| xs[i]);
    assert forall|x: int| 0 <= x < n implies #[trigger] f(x) >= 0real by {
        lemma_place_of(k, x);
        let (i, j) = (x / k, x % k);
        assert(squares.at(i, j) == squares.cells[x]);
        assert(real::powered(diff.at(i, j), 2, squares.at(i, j)));
        lemma_square(diff.at(i, j));
    }
    lemma_sum_positive(n, f);
    lemma_root(sum(n, f));
    lemma_sum_cells(k, k, f);
    let a = |i: int| sum(k, |j: int| f(cell(i, k, j)));
    let b = |i: int|
        sum(
            k,
            |j: int|
                (inner(m.column(i), m.column(j)) - delta(i, j)) * (inner(m.column(i), m.column(j))
                    - delta(i, j)),
        );
    assert forall|i: int| 0 <= i < k implies #[trigger] a(i) == b(i) by {
        let c = |j: int| f(cell(i, k, j));
        let d = |j: int|
            (inner(m.column(i), m.column(j)) - delta(i, j)) * (inner(m.column(i), m.column(j))
                - delta(i, j));
        assert forall|j: int| 0 <= j < k implies #[trigger] c(j) == d(j) by {
            lemma_cell_bound(k, k, i, j);
            assert(squares.at(i, j) == squares.cells[cell(i, k, j)]);
            assert(real::powered(diff.at(i, j), 2, squares.at(i, j)));
            assert(real::difference(
                gram.at(i, j),
                real::whole(Format::Single, unit_entry(i, j)),
                diff.at(i, j),
            ));
            assert(real::dotted(m.column(i), m.column(j), gram.at(i, j)));
        }
        lemma_sum_ext(k, c, d);
    }
    lemma_sum_ext(k, a, b);
}

/// The error is not negative, and is 0 exactly when the columns are orthonormal.
pub proof fn law_ortho_error(m: Grid<real>, e: real)
    requires
        roots_exist(),
        m.wf(),
        deviates(|x: real| x, m, e),
    ensures
        e >= 0real,
        e == 0real <==> orthonormal(m),
{
    let read = |x: real| x;
    let k = m.cols;
    let (gram, diff, squares) = choose|gram: Grid<real>, diff: Grid<real>, squares: Grid<real>|
        #[trigger] deviates_through(m, gram, diff, squares) && e == running_sum(
            0real,
            squares.cells.map_values(read),
            squares.cells.len() as int,
        ).root();
    let n = squares.cells.len() as int;
    let xs = squares.cells.map_values(read);
    lemma_running_sum(xs, n);
    let f = |x: int| xs[x];
    assert forall|x: int| 0 <= x < n implies #[trigger] f(x) >= 0real by {
        lemma_place_of(k, x);
        let (i, j) = (x / k, x % k);
        assert(squares.at(i, j) == squares.cells[x]);
        assert(real::powered(diff.at(i, j), 2, squares.at(i, j)));
        lemma_square(diff.at(i, j));
    }
    lemma_sum_positive(n, f);
    let total = sum(n, f);
    lemma_root(total);
    if e == 0real {
        assert(total == 0real) by {
            lemma_zero(e);
        }
        assert forall|i: int, j: int| 0 <= i < k && 0 <= j < k implies inner(
            #[trigger] m.column(i),
            #[trigger] m.column(j),
        ) == delta(i, j) by {
            lemma_cell_bound(k, k, i, j);
            assert(f(cell(i, k, j)) == 0real);
            assert(squares.at(i, j) == 0real);
            assert(real::powered(diff.at(i, j), 2, squares.at(i, j)));
            lemma_no_divisors(diff.at(i, j), diff.at(i, j));
            assert(real::difference(
                gram.at(i, j),
                real::whole(Format::Single, unit_entry(i, j)),
                diff.at(i, j),
            ));
            assert(real::dotted(m.column(i), m.column(j), gram.at(i, j)));
        }
    }
    if orthonormal(m) {
        assert forall|x: int| 0 <= x < n implies #[trigger] f(x) == 0real by {
            lemma_place_of(k, x);
            let (i, j) = (x / k, x % k);
            assert(squares.at(i, j) == squares.cells[x]);
            assert(inner(m.column(i), m.column(j)) == delta(i, j));
            assert(real::dotted(m.column(i), m.column(j), gram.at(i, j)));
            assert(real::difference(
                gram.at(i, j),
                real::whole(Format::Single, unit_entry(i, j)),
                diff.at(i, j),
            ));
            assert(real::powered(diff.at(i, j), 2, squares.at(i, j)));
            lemma_zero(0real);
        }
        lemma_sum_zero(n, f);
    }
}

/// A matrix with orthonormal columns is its own retraction.
pub proof fn law_retract_keeps(lanes: bool, cols: Seq<Seq<real>>, m: int, c: int)
    requires
        roots_exist(),
        tall(cols, m),
        cols.len() <= m,
        0 <= c < cols.len(),
        forall|i: int, j: int|
            0 <= i < cols.len() && 0 <= j < cols.len() ==> inner(
                #[trigger] cols[i],
                #[trigger] cols[j],
            ) == delta(i, j),
    ensures
        qr_q(lanes, cols, m)[c] == cols[c],
{
    let n = cols.len() as int;
    let r = |l: int, i: int| delta(l, i);
    assert forall|j: int, x: int| 0 <= j < n && 0 <= x < m implies #[trigger] cols[j][x] == sum(
        n,
        |l: int| cols[l][x] * r(l, j),
    ) by {
        let f = |l: int| cols[l][x] * r(l, j);
        assert forall|l: int| 0 <= l < n && l != j implies #[trigger] f(l) == 0real by {
            lemma_zero(cols[l][x]);
        }
        lemma_sum_single(n, f, j);
        lemma_one(cols[j][x]);
    }
    law_qr_unique(lanes, cols, m, cols, r);
}

/// To retract twice is to retract once.
pub proof fn law_retract_twice(lanes: bool, cols: Seq<Seq<real>>, m: int, c: int)
    requires
        roots_exist(),
        tall(cols, m),
        cols.len() <= m,
        0 <= c < cols.len(),
    ensures
        qr_q(lanes, qr_q(lanes, cols, m), m)[c] == qr_q(lanes, cols, m)[c],
{
    let q = qr_q(lanes, cols, m);
    let n = cols.len() as int;
    assert forall|j: int| 0 <= j < n implies (#[trigger] q[j]).len() == m by {
        law_q_orthonormal(lanes, cols, m, j, j);
    }
    assert forall|i: int, j: int| 0 <= i < n && 0 <= j < n implies inner(
        #[trigger] q[i],
        #[trigger] q[j],
    ) == delta(i, j) by {
        law_q_orthonormal(lanes, cols, m, i, j);
    }
    law_retract_keeps(lanes, q, m, c);
}

/// After a retraction the error is 0.
pub proof fn law_retract_clears(lanes: bool, m: Grid<real>, r: Grid<real>, e: real)
    requires
        roots_exist(),
        m.wf(),
        m.cols <= m.rows,
        r.sized(m.rows, m.cols),
        forall|c: int|
            0 <= c < m.cols ==> #[trigger] r.column(c) == qr_q(lanes, m.columns(), m.rows)[c],
        deviates(|x: real| x, r, e),
    ensures
        e == 0real,
{
    assert forall|i: int, j: int| 0 <= i < r.cols && 0 <= j < r.cols implies inner(
        #[trigger] r.column(i),
        #[trigger] r.column(j),
    ) == delta(i, j) by {
        law_q_orthonormal(lanes, m.columns(), m.rows, i, j);
    }
    law_ortho_error(r, e);
}

/// The route of the GPU gives the factor of the host: with `g` for `A^T A` and its Cholesky factor
/// in `rf`, substitution in row `x` of `A` gives row `x` of the retraction.
pub proof fn law_gram_route(
    lanes: bool,
    a: Grid<real>,
    g: Grid<real>,
    rf: Seq<real>,
    x: int,
    j: int,
)
    requires
        roots_exist(),
        a.wf(),
        a.cols <= a.rows,
        is_gram_grid(a, g),
        forall|c: int| 0 <= c < a.cols ==> #[trigger] kept(g.cells, a.cols, c),
        forall|l: int, i: int|
            0 <= l <= i < a.cols ==> #[trigger] rf[cell(l, a.cols, i)] == chol_at(
                g.cells,
                a.cols,
                l,
                i,
            ),
        0 <= x < a.rows,
        0 <= j < a.cols,
    ensures
        solve_at(a.row(x), rf, a.cols, j) == qr_q(lanes, a.columns(), a.rows)[j][x],
{
    let cols = a.columns();
    assert(is_gram(g.cells, cols)) by {
        assert forall|i: int, k: int| 0 <= i < a.cols && 0 <= k < a.cols implies #[trigger] g.cells[cell(
            i,
            a.cols,
            k,
        )] == inner(cols[i], cols[k]) by {
            assert(real::dotted(a.column(i), a.column(k), g.at(i, k)));
        }
    }
    law_same_q(lanes, cols, a.rows, g.cells, rf, a.row(x), x, j);
}

/// The parameters of a layer are the entries of its factors.
pub proof fn law_param_count(l: SctLinear)
    requires
        l.wf(),
    ensures
        l.rank * (l.in_features + l.out_features + 1) == l.u@.cells.len() + l.s@.len()
            + l.v@.cells.len(),
{
    assert(l.rank * (l.in_features + l.out_features + 1) == l.in_features * l.rank + l.rank
        + l.out_features * l.rank) by (nonlinear_arith);
}

} // verus!
