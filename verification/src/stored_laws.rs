//! What the layer stores: how the words of a result follow from the words that went in.
//!
//! Two kinds of laws stand here. Some hold in any arithmetic and say how two calls relate: what is
//! stored is what the kernel on plain numbers returns for the numbers that the words store. The
//! others are about the mathematical numbers, for every way to read and write words.

use crate::cholesky::chol_at;
use crate::dense::{reduced_state, square_r, tall_left, tall_triplets};
use crate::error_laws::{abs_dot, dots_within, exact_dot, within};
use crate::exact::{delta, inner, lemma_sum_ext, sum};
use crate::grid::{cell, columns, lemma_cell_bound, lemma_panel_bounds, panels};
use crate::house::{lesser, qr_q, qr_r, tall};
use crate::layer::{factors_dense, holds_dense, retracts, values, Factors, SctConfig, SctLinear};
use crate::layer_laws::{
    dense_state, law_dense_best_any, law_dense_orthonormal, law_retract_keeps, product_gap, weight,
};
use crate::outcome::Outcomes;
use crate::plan::{is_gram_grid, stores_cholesky};
use crate::scalar::{roots_exist, Number, WideNumber, WordNumber};
use crate::svd::{right_entry, singular_value};
use crate::svd_laws::law_values_descending;
use crate::sweep_laws::tangle;
use crate::tensor::{Grid, Mat};
use crate::unique_laws::{factored, lemma_factored};
use crate::words::{loaded, lowered, raised, stored};
use vstd::prelude::*;

verus! {

/// The columns of the numbers that the words of a matrix store.
pub open spec fn numbers<T: WordNumber>(m: Grid<u64>) -> Seq<Seq<T>> {
    Seq::new(
        m.cols as nat,
        |c: int| Seq::new(m.rows as nat, |x: int| T::of_word(m.cells[x * m.cols + c] as u32)),
    )
}

/// The words of a matrix store the columns `q`.
pub open spec fn stores_columns<T: WordNumber>(r: Grid<u64>, rows: int, q: Seq<Seq<T>>) -> bool {
    &&& r.rows == rows
    &&& r.cols == q.len()
    &&& r.cells.len() == rows * q.len()
    &&& forall|x: int, c: int|
        0 <= x < rows && 0 <= c < q.len() ==> #[trigger] r.cells[cell(x, q.len() as int, c)]
            == q[c][x].word() as u64
}

/// The numbers of a matrix, read as the retraction reads them.
proof fn lemma_numbers<T: WordNumber>(m: Grid<u64>)
    requires
        m.wf(),
    ensures
        values::<T>(m) == numbers::<T>(m),
{
    assert forall|c: int| 0 <= c < m.cols implies #[trigger] values::<T>(m)[c] == numbers::<T>(
        m,
    )[c] by {
        assert(values::<T>(m)[c] =~= numbers::<T>(m)[c]);
    }
    assert(values::<T>(m) =~= numbers::<T>(m));
}

/// In any arithmetic the retraction stores what [`qr_cpu`](crate::house::qr_cpu) returns as `q` for
/// the numbers that the matrix stores.
pub proof fn law_retract_stores<T: WordNumber>(
    lanes: bool,
    m: Grid<u64>,
    r: Grid<u64>,
    a: Seq<T>,
    q: Seq<T>,
)
    requires
        m.wf(),
        m.cols <= m.rows,
        retracts::<T>(lanes, m, r),
        a.len() == m.cells.len(),
        forall|x: int| 0 <= x < a.len() ==> #[trigger] a[x] == T::of_word(m.cells[x] as u32),
        q.len() == m.rows * m.cols,
        columns(q, m.rows, m.cols) == qr_q(lanes, columns(a, m.rows, m.cols), m.rows),
    ensures
        r.rows == m.rows,
        r.cols == m.cols,
        r.cells.len() == q.len(),
        forall|x: int| 0 <= x < q.len() ==> #[trigger] r.cells[x] == q[x].word() as u64,
{
    lemma_numbers::<T>(m);
    let cols = columns(a, m.rows, m.cols);
    assert forall|c: int| 0 <= c < m.cols implies #[trigger] cols[c] == numbers::<T>(m)[c] by {
        assert forall|x: int| 0 <= x < m.rows implies cols[c][x] == numbers::<T>(m)[c][x] by {
            lemma_cell_bound(m.rows, m.cols, x, c);
        }
        assert(cols[c] =~= numbers::<T>(m)[c]);
    }
    assert(cols =~= numbers::<T>(m));
    assert forall|i: int| 0 <= i < q.len() implies #[trigger] r.cells[i] == q[i].word() as u64 by {
        let (x, c) = lemma_place(m.rows, m.cols, i);
        assert(r.at(x, c) == qr_q(lanes, values::<T>(m), m.rows)[c][x].word() as u64);
        assert(columns(q, m.rows, m.cols)[c][x] == q[cell(x, m.cols, c)]);
    }
}

/// Line and entry of a place in a buffer.
proof fn lemma_place(rows: int, cols: int, i: int) -> (at: (int, int))
    requires
        0 <= i < rows * cols,
        0 <= rows,
        0 <= cols,
    ensures
        0 <= at.0 < rows,
        0 <= at.1 < cols,
        cell(at.0, cols, at.1) == i,
{
    assert(cols > 0) by (nonlinear_arith)
        requires
            0 <= i < rows * cols,
            0 <= rows,
            0 <= cols,
    ;
    vstd::arithmetic::div_mod::lemma_fundamental_div_mod(i, cols);
    vstd::arithmetic::div_mod::lemma_mod_bound(i, cols);
    let (x, c) = (i / cols, i % cols);
    vstd::arithmetic::mul::lemma_mul_is_commutative(cols, x);
    assert(0 <= x < rows) by (nonlinear_arith)
        requires
            0 <= x * cols + c < rows * cols,
            0 <= c < cols,
    ;
    (x, c)
}

/// The retraction is tied to what it retracts: the words of the result store orthonormal columns
/// `Q`, and the numbers of the matrix are `Q R` with an upper-triangular `R` whose diagonal is not
/// negative.
pub proof fn law_retract(lanes: bool, m: Grid<u64>, r: Grid<u64>)
    requires
        roots_exist(),
        m.wf(),
        m.cols <= m.rows,
        retracts::<real>(lanes, m, r),
    ensures
        exists|q: Seq<Seq<real>>, upper: spec_fn(int, int) -> real|
            {
                &&& #[trigger] factored(numbers::<real>(m), m.rows, q, upper)
                &&& stores_columns(r, m.rows, q)
            },
{
    lemma_numbers::<real>(m);
    let cols = numbers::<real>(m);
    lemma_factored(lanes, cols, m.rows);
    let q = qr_q(lanes, cols, m.rows);
    let upper = |c: int, j: int| qr_r(lanes, cols, m.rows, c, j);
    assert forall|x: int, c: int| 0 <= x < m.rows && 0 <= c < q.len() implies #[trigger] r.cells[cell(
        x,
        q.len() as int,
        c,
    )] == q[c][x].word() as u64 by {
        assert(r.at(x, c) == q[c][x].word() as u64);
    }
    assert(factored(cols, m.rows, q, upper) && stores_columns(r, m.rows, q));
}

/// A retraction leaves orthonormal columns alone: where the numbers of the matrix are orthonormal
/// and its words are those that its numbers get, the result has the same words.
pub proof fn law_retract_leaves(lanes: bool, m: Grid<u64>, r: Grid<u64>)
    requires
        roots_exist(),
        m.wf(),
        m.cols <= m.rows,
        retracts::<real>(lanes, m, r),
        forall|i: int, j: int|
            0 <= i < m.cols && 0 <= j < m.cols ==> inner(
                #[trigger] numbers::<real>(m)[i],
                #[trigger] numbers::<real>(m)[j],
            ) == delta(i, j),
        forall|x: int|
            0 <= x < m.cells.len() ==> real::of_word(#[trigger] m.cells[x] as u32).word() as u64
                == m.cells[x],
    ensures
        r == m,
{
    lemma_numbers::<real>(m);
    let cols = numbers::<real>(m);
    assert forall|i: int| 0 <= i < m.cells.len() implies #[trigger] r.cells[i] == m.cells[i] by {
        let (x, c) = lemma_place(m.rows, m.cols, i);
        law_retract_keeps(lanes, cols, m.rows, c);
        assert(r.at(x, c) == qr_q(lanes, values::<real>(m), m.rows)[c][x].word() as u64);
        assert(cols[c][x] == real::of_word(m.cells[i] as u32));
    }
    assert(r.cells =~= m.cells);
}

/// In any arithmetic a new layer is made of its draws: its factors are what a retraction makes of
/// them.
pub proof fn law_new_retracts<T: WordNumber>(
    l: SctLinear,
    cfg: SctConfig,
    u_draw: Mat,
    v_draw: Mat,
    lanes: bool,
    ru: Grid<u64>,
    rv: Grid<u64>,
)
    requires
        cfg.takes_draws(&u_draw, &v_draw),
        l.starts::<T>(&cfg, &u_draw, &v_draw, lanes),
        retracts::<T>(lanes, u_draw@, ru),
        retracts::<T>(lanes, v_draw@, rv),
    ensures
        l.u@ == ru,
        l.v@ == rv,
{
    lemma_same_retraction::<T>(lanes, u_draw@, l.u@, ru);
    lemma_same_retraction::<T>(lanes, v_draw@, l.v@, rv);
}

proof fn lemma_same_retraction<T: WordNumber>(
    lanes: bool,
    m: Grid<u64>,
    r: Grid<u64>,
    r2: Grid<u64>,
)
    requires
        m.wf(),
        retracts::<T>(lanes, m, r),
        retracts::<T>(lanes, m, r2),
    ensures
        r == r2,
{
    assert forall|i: int| 0 <= i < r.cells.len() implies #[trigger] r.cells[i] == r2.cells[i] by {
        let (x, c) = lemma_place(m.rows, m.cols, i);
        assert(r.at(x, c) == r2.at(x, c));
    }
    assert(r.cells =~= r2.cells);
}

/// A new layer spans what its draws span: the words of each factor store orthonormal columns `Q`,
/// and the numbers of the draw are `Q R` with an upper-triangular `R` whose diagonal is not
/// negative. The singular values are 1, and the rank is the largest that the shape and the
/// configuration allow.
pub proof fn law_new(l: SctLinear, cfg: SctConfig, u_draw: Mat, v_draw: Mat, lanes: bool)
    requires
        roots_exist(),
        cfg.takes_draws(&u_draw, &v_draw),
        l.wf(),
        l.starts::<real>(&cfg, &u_draw, &v_draw, lanes),
    ensures
        exists|q: Seq<Seq<real>>, upper: spec_fn(int, int) -> real|
            {
                &&& #[trigger] factored(
                    numbers::<real>(u_draw@),
                    cfg.in_features as int,
                    q,
                    upper,
                )
                &&& stores_columns(l.u@, cfg.in_features as int, q)
            },
        exists|q: Seq<Seq<real>>, upper: spec_fn(int, int) -> real|
            {
                &&& #[trigger] factored(
                    numbers::<real>(v_draw@),
                    cfg.out_features as int,
                    q,
                    upper,
                )
                &&& stores_columns(l.v@, cfg.out_features as int, q)
            },
        l.s@.len() == l.rank,
        forall|i: int| 0 <= i < l.rank ==> #[trigger] l.s@[i] == 0x3f80_0000,
        l.in_features == cfg.in_features,
        l.out_features == cfg.out_features,
        l.rank <= cfg.rank,
        l.rank <= cfg.in_features,
        l.rank <= cfg.out_features,
        l.rank == cfg.rank || l.rank == cfg.in_features || l.rank == cfg.out_features,
{
    law_retract(lanes, u_draw@, l.u@);
    law_retract(lanes, v_draw@, l.v@);
}

/// The words store the numbers `xs`.
pub open spec fn stores_all<T: WordNumber>(words: Seq<u64>, xs: Seq<T>) -> bool {
    &&& words.len() == xs.len()
    &&& forall|i: int| 0 <= i < xs.len() ==> #[trigger] words[i] == xs[i].word() as u64
}

/// The numbers that the words of a matrix store, row-major.
pub open spec fn flat_numbers<T: WordNumber>(m: Grid<u64>) -> Seq<T> {
    Seq::new(m.cells.len(), |x: int| T::of_word(m.cells[x] as u32))
}

/// Two buffers with the same entries.
proof fn lemma_same_buffer<T>(x: Seq<T>, y: Seq<T>, rows: int, cols: int)
    requires
        0 <= rows,
        0 <= cols,
        x.len() == rows * cols,
        y.len() == rows * cols,
        forall|i: int, j: int|
            0 <= i < rows && 0 <= j < cols ==> #[trigger] x[cell(i, cols, j)] == y[cell(
                i,
                cols,
                j,
            )],
    ensures
        x == y,
{
    assert forall|p: int| 0 <= p < x.len() implies x[p] == y[p] by {
        let (i, j) = lemma_place(rows, cols, p);
        assert(x[cell(i, cols, j)] == y[cell(i, cols, j)]);
    }
    assert(x =~= y);
}

/// The triplets of a matrix are determined.
proof fn lemma_same_triplets<T: Number, D: WideNumber<T>>(
    lanes: bool,
    cols: Seq<Seq<T>>,
    n: int,
    k: int,
    sweeps: int,
    f: (Seq<T>, Seq<T>, Seq<T>),
    g: (Seq<T>, Seq<T>, Seq<T>),
)
    requires
        0 <= n,
        0 <= k,
        tall_triplets::<T, D>(lanes, cols, n, k, sweeps, f.0, f.1, f.2),
        tall_triplets::<T, D>(lanes, cols, n, k, sweeps, g.0, g.1, g.2),
    ensures
        f == g,
{
    lemma_same_buffer(f.0, g.0, cols.len() as int, k);
    lemma_same_buffer(f.2, g.2, n, k);
    assert(f.1 =~= g.1);
}

/// In any arithmetic the layer that stands for a dense weight stores the factors that
/// [`dense_factors`](crate::dense::dense_factors) returns for the numbers of the weight.
pub proof fn law_dense_stores<T: WordNumber, D: WideNumber<T>>(
    lanes: bool,
    w: Grid<u64>,
    k: int,
    iters: int,
    u: Seq<u64>,
    s: Seq<u64>,
    v: Seq<u64>,
    f: Factors<T>,
)
    requires
        w.wf(),
        0 <= k,
        holds_dense::<T, D>(lanes, w, k, iters, u, s, v),
        factors_dense::<T, D>(lanes, flat_numbers::<T>(w), w.rows, w.cols, k, iters, f),
    ensures
        stores_all(u, f.u),
        stores_all(s, f.s),
        stores_all(v, f.v),
{
    let a = loaded::<T>(lowered(w.cells));
    assert(a =~= flat_numbers::<T>(w));
    let g = choose|g: Factors<T>|
        {
            &&& #[trigger] factors_dense::<T, D>(lanes, a, w.rows, w.cols, k, iters, g)
            &&& u == raised(stored(g.u))
            &&& s == raised(stored(g.s))
            &&& v == raised(stored(g.v))
        };
    if w.rows >= w.cols {
        lemma_same_triplets::<T, D>(
            lanes,
            columns(a, w.rows, w.cols),
            w.rows,
            k,
            iters,
            (f.u, f.s, f.v),
            (g.u, g.s, g.v),
        );
    } else {
        lemma_same_triplets::<T, D>(
            lanes,
            panels(a, w.cols, w.rows),
            w.cols,
            k,
            iters,
            (f.v, f.s, f.u),
            (g.v, g.s, g.u),
        );
    }
}

/// The numbers `f` are good factors of rank `k` of the row-major `n x m` matrix `a` after `iters`
/// sweeps.
pub open spec fn good_factors(
    lanes: bool,
    a: Seq<real>,
    n: int,
    m: int,
    k: int,
    iters: int,
    f: Factors<real>,
) -> bool {
    let u = Grid { rows: m, cols: k, cells: f.u };
    let v = Grid { rows: n, cols: k, cells: f.v };
    let miss = |o: int, i: int| a[o * m + i] - sum(k, |t: int| f.u[i * k + t] * f.s[t] * f.v[o * k
        + t]);
    &&& f.u.len() == m * k
    &&& f.s.len() == k
    &&& f.v.len() == n * k
    &&& forall|i: int| 0 <= i < k ==> #[trigger] f.s[i] >= 0real
    &&& forall|i: int, j: int| 0 <= i < j < k ==> #[trigger] f.s[j] <= #[trigger] f.s[i]
    &&& forall|i: int, j: int|
        0 <= i < k && 0 <= j < k ==> inner(
            (if n >= m {
                #[trigger] u.column(i)
            } else {
                v.column(i)
            }),
            (if n >= m {
                #[trigger] u.column(j)
            } else {
                v.column(j)
            }),
        ) == delta(i, j)
    &&& forall|i: int|
        0 <= i < k ==> inner(
            (if n >= m {
                #[trigger] v.column(i)
            } else {
                u.column(i)
            }),
            (if n >= m {
                v.column(i)
            } else {
                u.column(i)
            }),
        ) == 1real
    &&& forall|xs: Seq<Seq<real>>, ys: Seq<Seq<real>>|
        xs.len() == k && ys.len() == k && tall(xs, n) && tall(ys, m) ==> sum(
            n,
            |o: int| sum(m, |i: int| miss(o, i) * miss(o, i)),
        ) <= #[trigger] product_gap(a, n, m, xs, ys) + (k as real) * tangle(
            dense_state(lanes, a, n, m, iters).a,
        ).root()
}

/// The layer that stands for a dense weight holds its best factors: the words store numbers with
/// orthonormal columns and descending singular values, and no sum of as many products of two
/// vectors comes closer to the numbers of the weight, up to the tangle that the sweeps have left.
pub proof fn law_from_dense(
    lanes: bool,
    w: Grid<u64>,
    k: int,
    iters: int,
    u: Seq<u64>,
    s: Seq<u64>,
    v: Seq<u64>,
)
    requires
        roots_exist(),
        w.wf(),
        0 <= k <= lesser(w.cols, w.rows),
        holds_dense::<real, real>(lanes, w, k, iters, u, s, v),
    ensures
        exists|f: Factors<real>|
            {
                &&& #[trigger] good_factors(
                    lanes,
                    flat_numbers::<real>(w),
                    w.rows,
                    w.cols,
                    k,
                    iters,
                    f,
                )
                &&& stores_all(u, f.u)
                &&& stores_all(s, f.s)
                &&& stores_all(v, f.v)
            },
{
    let (n, m) = (w.rows, w.cols);
    let a = flat_numbers::<real>(w);
    assert(loaded::<real>(lowered(w.cells)) =~= a);
    let f = choose|g: Factors<real>|
        {
            &&& #[trigger] factors_dense::<real, real>(
                lanes,
                loaded::<real>(lowered(w.cells)),
                w.rows,
                w.cols,
                k,
                iters,
                g,
            )
            &&& u == raised(stored(g.u))
            &&& s == raised(stored(g.s))
            &&& v == raised(stored(g.v))
        };
    let ug = Grid { rows: m, cols: k, cells: f.u };
    let vg = Grid { rows: n, cols: k, cells: f.v };
    assert forall|i: int, j: int| 0 <= i < k && 0 <= j < k implies inner(
        (if n >= m {
            #[trigger] ug.column(i)
        } else {
            vg.column(i)
        }),
        (if n >= m {
            #[trigger] ug.column(j)
        } else {
            vg.column(j)
        }),
    ) == delta(i, j) by {
        law_dense_orthonormal(lanes, a, n, m, k, iters, f, ug, vg, i, j);
    }
    assert forall|i: int| 0 <= i < k implies inner(
        (if n >= m {
            #[trigger] vg.column(i)
        } else {
            ug.column(i)
        }),
        (if n >= m {
            vg.column(i)
        } else {
            ug.column(i)
        }),
    ) == 1real by {
        law_dense_orthonormal(lanes, a, n, m, k, iters, f, ug, vg, i, i);
    }
    assert forall|i: int| 0 <= i < k implies #[trigger] f.s[i] >= 0real by {
        lemma_dense_values(lanes, a, n, m, k, iters, f, i, i);
    }
    assert forall|i: int, j: int| 0 <= i < j < k implies #[trigger] f.s[j] <= #[trigger] f.s[i] by {
        lemma_dense_values(lanes, a, n, m, k, iters, f, i, j);
    }
    let miss = |o: int, i: int| a[o * m + i] - sum(k, |t: int| f.u[i * k + t] * f.s[t] * f.v[o * k
        + t]);
    assert forall|xs: Seq<Seq<real>>, ys: Seq<Seq<real>>|
        xs.len() == k && ys.len() == k && tall(xs, n) && tall(ys, m) implies sum(
        n,
        |o: int| sum(m, |i: int| miss(o, i) * miss(o, i)),
    ) <= #[trigger] product_gap(a, n, m, xs, ys) + (k as real) * tangle(
        dense_state(lanes, a, n, m, iters).a,
    ).root() by {
        law_dense_best_any(lanes, a, n, m, k, iters, f, ug, vg, xs, ys);
        let whole = |o: int|
            sum(
                m,
                |i: int|
                    (a[cell(o, m, i)] - weight(ug, f.s, vg, i, o)) * (a[cell(o, m, i)] - weight(
                        ug,
                        f.s,
                        vg,
                        i,
                        o,
                    )),
            );
        let mine = |o: int| sum(m, |i: int| miss(o, i) * miss(o, i));
        assert forall|o: int| 0 <= o < n implies #[trigger] whole(o) == mine(o) by {
            let p = |i: int|
                (a[cell(o, m, i)] - weight(ug, f.s, vg, i, o)) * (a[cell(o, m, i)] - weight(
                    ug,
                    f.s,
                    vg,
                    i,
                    o,
                ));
            let q = |i: int| miss(o, i) * miss(o, i);
            assert forall|i: int| 0 <= i < m implies #[trigger] p(i) == q(i) by {
                lemma_sum_ext(
                    k,
                    |t: int| ug.at(i, t) * f.s[t] * vg.at(o, t),
                    |t: int| f.u[i * k + t] * f.s[t] * f.v[o * k + t],
                );
            }
            lemma_sum_ext(m, p, q);
        }
        lemma_sum_ext(n, whole, mine);
    }
    assert(good_factors(lanes, a, n, m, k, iters, f));
}

/// The singular values of a dense weight.
proof fn lemma_dense_values(
    lanes: bool,
    a: Seq<real>,
    n: int,
    m: int,
    k: int,
    iters: int,
    f: Factors<real>,
    i: int,
    j: int,
)
    requires
        roots_exist(),
        0 <= i <= j < k,
        k <= lesser(m, n),
        factors_dense::<real, real>(lanes, a, n, m, k, iters, f),
    ensures
        0real <= f.s[j] <= f.s[i],
{
    let (cols, rows) = if n >= m {
        (columns(a, n, m), n)
    } else {
        (panels(a, m, n), m)
    };
    let c = cols.len() as int;
    law_values_descending(lanes, square_r(lanes, cols, rows), c, c, iters, i, j);
    let st = reduced_state::<real, real>(lanes, cols, rows, iters);
    assert(f.s[i] == singular_value(st, i).narrowed());
    assert(f.s[j] == singular_value(st, j).narrowed());
}

/// The factors of a dense matrix in any arithmetic, entry by entry: a matrix with no more columns
/// than rows has the right singular vectors of its reduced state in `u` and its left ones in `v`,
/// and any other the left ones of its transpose in `u` and the right ones in `v`.
pub proof fn law_dense_entries<T: Number, D: WideNumber<T>>(
    lanes: bool,
    a: Seq<T>,
    n: int,
    m: int,
    k: int,
    iters: int,
    f: Factors<T>,
    j: int,
    r: int,
    i: int,
)
    requires
        factors_dense::<T, D>(lanes, a, n, m, k, iters, f),
        0 <= i < k,
        0 <= j < m,
        0 <= r < n,
    ensures
        f.u.len() == m * k,
        f.s.len() == k,
        f.v.len() == n * k,
        n >= m ==> {
            let cols = Seq::new(
                m as nat,
                |c: int| Seq::new(n as nat, |x: int| a[x * m + c]),
            );
            let st = reduced_state::<T, D>(lanes, cols, n, iters);
            &&& f.u[j * k + i] == right_entry(st, j, i).narrowed()
            &&& f.s[i] == singular_value(st, i).narrowed()
            &&& f.v[r * k + i] == tall_left::<T, D>(lanes, cols, n, iters, r, i)
        },
        n < m && a.len() >= n * m ==> {
            let cols = Seq::new(
                n as nat,
                |c: int| Seq::new(m as nat, |x: int| a[c * m + x]),
            );
            let st = reduced_state::<T, D>(lanes, cols, m, iters);
            &&& f.v[r * k + i] == right_entry(st, r, i).narrowed()
            &&& f.s[i] == singular_value(st, i).narrowed()
            &&& f.u[j * k + i] == tall_left::<T, D>(lanes, cols, m, iters, j, i)
        },
{
    if n >= m {
        let cols = Seq::new(m as nat, |c: int| Seq::new(n as nat, |x: int| a[x * m + c]));
        let given = columns(a, n, m);
        assert forall|c: int| 0 <= c < m implies #[trigger] given[c] == cols[c] by {
            assert(given[c] =~= cols[c]);
        }
        assert(given =~= cols);
        assert(f.u[cell(j, k, i)] == f.u[j * k + i]);
        assert(f.v[cell(r, k, i)] == f.v[r * k + i]);
    } else if a.len() >= n * m {
        let cols = Seq::new(n as nat, |c: int| Seq::new(m as nat, |x: int| a[c * m + x]));
        let given = panels(a, m, n);
        assert forall|c: int| 0 <= c < n implies #[trigger] given[c] == cols[c] by {
            lemma_panel_bounds(m, n, c);
            assert(given[c] =~= cols[c]);
        }
        assert(given =~= cols);
        assert(f.u[cell(j, k, i)] == f.u[j * k + i]);
        assert(f.v[cell(r, k, i)] == f.v[r * k + i]);
    }
}

/// In any arithmetic the triangular factor for the route by `A^T A` is stored as
/// [`cholesky_host`](crate::cholesky::cholesky_host) returns it for the numbers of the matrix: its
/// Cholesky factor on and above the diagonal, and 0 below it.
pub proof fn law_gram_stores<T: WordNumber>(g: Grid<u64>, r: Grid<u64>, j: int, i: int)
    requires
        g.wf(),
        g.rows == g.cols,
        stores_cholesky::<T>(g, r),
        0 <= j < g.rows,
        0 <= i < g.rows,
    ensures
        r.cells.len() == g.rows * g.rows,
        r.cells[j * g.rows + i] == (if j <= i {
            chol_at(flat_numbers::<T>(g), g.rows, j, i)
        } else {
            T::nought()
        }).word() as u64,
{
    assert(loaded::<T>(lowered(g.cells)) =~= flat_numbers::<T>(g));
    assert(r.at(j, i) == r.cells[cell(j, g.rows, i)]);
}

/// `A^T A` on a device whose products of matrices are exact up to `acc`: every entry is the inner
/// product of two columns, up to `acc` of the absolute values of its terms.
pub proof fn law_gram_within<N: Outcomes>(
    val: spec_fn(N) -> real,
    acc: real,
    a: Grid<N>,
    g: Grid<N>,
    i: int,
    j: int,
)
    requires
        dots_within(val, acc),
        is_gram_grid(a, g),
        0 <= i < a.cols,
        0 <= j < a.cols,
    ensures
        g.sized(a.cols, a.cols),
        within(
            val(g.at(i, j)),
            exact_dot(val, a.column(i), a.column(j)),
            acc * abs_dot(val, a.column(i), a.column(j)),
        ),
{
    assert(N::dotted(a.column(i), a.column(j), g.at(i, j)));
}

/// Numbers go in and out of words one by one, in any arithmetic: what is loaded from the words that
/// numbers were stored in is what the words of these numbers store.
pub proof fn law_words<T: WordNumber>(xs: Seq<T>)
    ensures
        stored(xs).len() == xs.len(),
        loaded::<T>(stored(xs)).len() == xs.len(),
        forall|i: int|
            0 <= i < xs.len() ==> {
                &&& #[trigger] stored(xs)[i] == xs[i].word()
                &&& loaded::<T>(stored(xs))[i] == T::of_word(xs[i].word())
            },
{
}

} // verus!
