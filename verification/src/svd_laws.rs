//! What the singular value decomposition is in exact arithmetic.
//!
//! The laws hold after any number of sweeps, with lanes and without, for matrices of every shape
//! and rank: rotations lose nothing.

use crate::algebra::{
    lemma_assoc, lemma_cancel, lemma_comm, lemma_inverse, lemma_negate, lemma_no_divisors,
    lemma_not_negative, lemma_one, lemma_over_times, lemma_positive, lemma_regroup, lemma_spread,
    lemma_spread_sub, lemma_square, lemma_zero,
};
use crate::chol_laws::{lemma_root_unique, lemma_tenth_positive};
use crate::exact::{
    delta, inner, lemma_inner_comm, lemma_isometry, lemma_orthonormal_coefficient, lemma_root,
    lemma_running_dot, lemma_sum_add, lemma_sum_exchange, lemma_sum_ext, lemma_sum_insert,
    lemma_sum_scale, lemma_sum_single, lemma_sum_split, lemma_sum_squares, lemma_sum_swap,
    lemma_wide_dot, sum,
};
use crate::grid::cell;
use crate::house::{axis, lesser, tall};
use crate::lanes::{rotated_first, rotated_second, wide_whole};
use crate::qr_laws::{house_mirrors, lemma_all_mirrors, lemma_column_wound, lemma_unwound};
use crate::scalar::{roots_exist, Number, WideNumber};
use crate::svd::{
    all_settled, completed, cosine, directions_of, jacobi, lasting, left_entry, left_vector,
    lemma_pair_shape, lemma_place, lemma_ranked, length, lengths, pair_step, place, ranked,
    right_entry, row_steps, settled, shaped, singular_value, spent, svd_state, sweep_rows,
    tangent, triplet, turned, unturned, Jacobi, JACOBI_PLACES,
};
use crate::winding::{
    lemma_axes, lemma_rewound_inner, lemma_rewound_len, lemma_rewound_wound, wound,
};
use vstd::prelude::*;

verus! {

/// A sweep leaves a state alone whose pairs are all settled, in any arithmetic: once a sweep has
/// changed nothing, the rest of them can be left out.
pub proof fn law_settled_stays<N: Number>(lanes: bool, st: Jacobi<N>, sweeps: int)
    requires
        all_settled(lanes, st),
    ensures
        jacobi(lanes, st, st.a.len() as int, sweeps) == st,
    decreases sweeps,
{
    if sweeps > 0 {
        law_settled_stays(lanes, st, sweeps - 1);
        lemma_sweep_stays(lanes, st, st.a.len() as int);
    }
}

proof fn lemma_sweep_stays<N: Number>(lanes: bool, st: Jacobi<N>, p: int)
    requires
        all_settled(lanes, st),
        p <= st.a.len(),
    ensures
        sweep_rows(lanes, st, st.a.len() as int, p) == st,
    decreases p,
{
    if p > 0 {
        lemma_sweep_stays(lanes, st, p - 1);
        lemma_row_stays(lanes, st, p - 1, st.a.len() as int);
    }
}

proof fn lemma_row_stays<N: Number>(lanes: bool, st: Jacobi<N>, p: int, q: int)
    requires
        all_settled(lanes, st),
        0 <= p,
        q <= st.a.len(),
    ensures
        row_steps(lanes, st, p, q) == st,
    decreases q - p,
{
    if q > p + 1 {
        lemma_row_stays(lanes, st, p, q - 1);
        assert(settled(lanes, st.a[p], st.a[q - 1]));
    }
}

/// `c x + s y`.
pub open spec fn mixed(c: real, x: Seq<real>, s: real, y: Seq<real>) -> Seq<real> {
    Seq::new(x.len(), |i: int| c * x[i] + s * y[i])
}

/// In exact arithmetic fusing makes no difference to a rotation.
pub proof fn lemma_rotated(x: Seq<real>, y: Seq<real>, c: real, s: real, whole: int)
    requires
        x.len() == y.len(),
    ensures
        rotated_first(x, y, c, s, whole) == mixed(c, x, s, y),
        rotated_second(x, y, c, s, whole) == mixed(c, y, -s, x),
{
    assert(rotated_first(x, y, c, s, whole) =~= mixed(c, x, s, y));
    let lhs = rotated_second(x, y, c, s, whole);
    let rhs = mixed(c, y, -s, x);
    assert forall|i: int| 0 <= i < x.len() implies #[trigger] lhs[i] == rhs[i] by {
        lemma_negate(s, x[i]);
    }
    assert(lhs =~= rhs);
}

/// The cosine and the sine of a rotation.
pub proof fn lemma_cosine(t: real)
    requires
        roots_exist(),
    ensures
        cosine(t) * cosine(t) + (t * cosine(t)) * (t * cosine(t)) == 1real,
{
    let tt = t * t;
    lemma_square(t);
    let w = 1real + tt;
    lemma_root(w);
    let g = w.root();
    let c = cosine(t);
    assert(c == 1real / g);
    lemma_inverse(g);
    assert(c * g == 1real);
    let cc = c * c;
    lemma_regroup(c, g, c, g);
    assert(cc * w == 1real * 1real);
    lemma_regroup(t, c, t, c);
    lemma_comm(tt, cc);
    lemma_spread(cc, 1real, tt);
    lemma_one(cc);
}

/// A rotation of two pairs keeps the sum of their products.
pub proof fn lemma_turn_product(a: real, b: real, x: real, y: real, c: real, s: real)
    requires
        c * c + s * s == 1real,
    ensures
        (c * a + s * b) * (c * x + s * y) + (c * b + (-s) * a) * (c * y + (-s) * x) == a * x + b * y,
{
    let (ca, sb, cx, sy) = (c * a, s * b, c * x, s * y);
    let (cb, sa, cy, sx) = (c * b, s * a, c * y, s * x);
    let (cc, ss, cs) = (c * c, s * s, c * s);
    let (ax, by, ay, bx) = (a * x, b * y, a * y, b * x);
    lemma_negate(s, a);
    lemma_negate(s, x);
    // The first product.
    let u = cx + sy;
    assert((ca + sb) * u == cc * ax + cs * ay + cs * bx + ss * by) by {
        lemma_comm(ca + sb, u);
        lemma_spread(u, ca, sb);
        lemma_comm(u, ca);
        lemma_comm(u, sb);
        lemma_spread(ca, cx, sy);
        lemma_spread(sb, cx, sy);
        lemma_regroup(c, a, c, x);
        lemma_regroup(c, a, s, y);
        lemma_regroup(s, b, c, x);
        lemma_regroup(s, b, s, y);
        lemma_comm(s, c);
    }
    // The second.
    let v = cy - sx;
    assert((cb - sa) * v == cc * by - cs * bx - cs * ay + ss * ax) by {
        lemma_comm(cb - sa, v);
        lemma_spread_sub(v, cb, sa);
        lemma_comm(v, cb);
        lemma_comm(v, sa);
        lemma_spread_sub(cb, cy, sx);
        lemma_spread_sub(sa, cy, sx);
        lemma_regroup(c, b, c, y);
        lemma_regroup(c, b, s, x);
        lemma_regroup(s, a, c, y);
        lemma_regroup(s, a, s, x);
        lemma_comm(s, c);
    }
    assert(cc * ax + ss * ax == ax) by {
        lemma_comm(cc, ax);
        lemma_comm(ss, ax);
        lemma_spread(ax, cc, ss);
        lemma_one(ax);
    }
    assert(cc * by + ss * by == by) by {
        lemma_comm(cc, by);
        lemma_comm(ss, by);
        lemma_spread(by, cc, ss);
        lemma_one(by);
    }
}

/// Turning the lines of two matrices alike keeps the products of their columns.
pub proof fn lemma_turned_sum(
    lanes: bool,
    xs: Seq<Seq<real>>,
    ys: Seq<Seq<real>>,
    p: int,
    q: int,
    c: real,
    s: real,
    x: int,
    y: int,
)
    requires
        c * c + s * s == 1real,
        xs.len() == ys.len(),
        0 <= p < q < xs.len(),
        xs[p].len() == xs[q].len(),
        ys[p].len() == ys[q].len(),
        0 <= x < xs[p].len(),
        0 <= y < ys[p].len(),
    ensures
        sum(
            xs.len() as int,
            |j: int| turned(lanes, xs, p, q, c, s)[j][x] * turned(lanes, ys, p, q, c, s)[j][y],
        ) == sum(xs.len() as int, |j: int| xs[j][x] * ys[j][y]),
{
    let m = xs.len() as int;
    let (xt, yt) = (turned(lanes, xs, p, q, c, s), turned(lanes, ys, p, q, c, s));
    lemma_rotated(xs[p], xs[q], c, s, wide_whole(lanes, xs[p].len() as int));
    lemma_rotated(ys[p], ys[q], c, s, wide_whole(lanes, ys[p].len() as int));
    let f = |j: int| xt[j][x] * yt[j][y];
    let g = |j: int| xs[j][x] * ys[j][y];
    lemma_turn_product(xs[p][x], xs[q][x], ys[p][y], ys[q][y], c, s);
    lemma_sum_exchange(m, f, g, p, q);
    lemma_sum_ext(
        m,
        f,
        |j: int| turned(lanes, xs, p, q, c, s)[j][x] * turned(lanes, ys, p, q, c, s)[j][y],
    );
}

/// The inner product with a mixed vector.
pub proof fn lemma_inner_mixed(z: Seq<real>, c: real, x: Seq<real>, s: real, y: Seq<real>)
    requires
        z.len() == x.len(),
        z.len() == y.len(),
    ensures
        inner(z, mixed(c, x, s, y)) == c * inner(z, x) + s * inner(z, y),
{
    let n = z.len() as int;
    let w = mixed(c, x, s, y);
    let f = |i: int| z[i] * x[i];
    let g = |i: int| z[i] * y[i];
    let cf = |i: int| c * f(i);
    let sg = |i: int| s * g(i);
    let both = |i: int| cf(i) + sg(i);
    let h = |i: int| z[i] * w[i];
    assert forall|i: int| 0 <= i < n implies #[trigger] h(i) == both(i) by {
        let (zi, xi, yi) = (z[i], x[i], y[i]);
        lemma_spread(zi, c * xi, s * yi);
        lemma_assoc(zi, c, xi);
        lemma_comm(zi, c);
        lemma_assoc(c, zi, xi);
        lemma_assoc(zi, s, yi);
        lemma_comm(zi, s);
        lemma_assoc(s, zi, yi);
    }
    lemma_sum_ext(n, h, both);
    lemma_sum_add(n, cf, sg);
    lemma_sum_scale(n, f, c);
    lemma_sum_scale(n, g, s);
}

/// The rows of the state are orthonormal.
pub open spec fn rows_orthonormal(v: Seq<Seq<real>>) -> bool {
    forall|i: int, j: int|
        0 <= i < v.len() && 0 <= j < v.len() ==> inner(#[trigger] v[i], #[trigger] v[j]) == delta(
            i,
            j,
        )
}

/// The inner product of row `i`, not itself turned or turned, with the turned row `p`.
proof fn lemma_turned_row(
    v: Seq<Seq<real>>,
    m: int,
    i: int,
    p: int,
    q: int,
    c: real,
    s: real,
)
    requires
        rows_orthonormal(v),
        tall(v, m),
        0 <= i < v.len(),
        0 <= p < v.len(),
        0 <= q < v.len(),
        p != q,
    ensures
        inner(v[i], mixed(c, v[p], s, v[q])) == (if i == p {
            c
        } else if i == q {
            s
        } else {
            0real
        }),
{
    lemma_inner_mixed(v[i], c, v[p], s, v[q]);
    lemma_one(c);
    lemma_zero(c);
    lemma_one(s);
    lemma_zero(s);
}

/// Turning orthonormal rows keeps them orthonormal.
pub proof fn lemma_turned_rows(
    lanes: bool,
    v: Seq<Seq<real>>,
    m: int,
    p: int,
    q: int,
    c: real,
    s: real,
)
    requires
        c * c + s * s == 1real,
        rows_orthonormal(v),
        tall(v, m),
        0 <= p < q < v.len(),
    ensures
        rows_orthonormal(turned(lanes, v, p, q, c, s)),
{
    let w = turned(lanes, v, p, q, c, s);
    lemma_rotated(v[p], v[q], c, s, wide_whole(lanes, m));
    let wp = mixed(c, v[p], s, v[q]);
    let wq = mixed(c, v[q], -s, v[p]);
    assert(w[p] == wp && w[q] == wq);
    assert forall|i: int, j: int| 0 <= i < v.len() && 0 <= j < v.len() implies inner(
        #[trigger] w[i],
        #[trigger] w[j],
    ) == delta(i, j) by {
        // With the old rows.
        lemma_turned_row(v, m, i, p, q, c, s);
        lemma_turned_row(v, m, i, q, p, c, -s);
        lemma_turned_row(v, m, j, p, q, c, s);
        lemma_turned_row(v, m, j, q, p, c, -s);
        lemma_turned_row(v, m, p, p, q, c, s);
        lemma_turned_row(v, m, q, p, q, c, s);
        lemma_turned_row(v, m, p, q, p, c, -s);
        lemma_turned_row(v, m, q, q, p, c, -s);
        lemma_inner_comm(v[p], wp);
        lemma_inner_comm(v[q], wp);
        lemma_inner_comm(v[p], wq);
        lemma_inner_comm(v[q], wq);
        lemma_inner_comm(v[i], wp);
        lemma_inner_comm(v[i], wq);
        lemma_inner_comm(v[j], wp);
        lemma_inner_comm(v[j], wq);
        lemma_inner_mixed(wp, c, v[p], s, v[q]);
        lemma_inner_mixed(wp, c, v[q], -s, v[p]);
        lemma_inner_mixed(wq, c, v[p], s, v[q]);
        lemma_inner_mixed(wq, c, v[q], -s, v[p]);
        lemma_negate(s, c);
        lemma_negate(s, -s);
        lemma_negate(s, s);
        lemma_comm(s, -s);
        lemma_comm(c, s);
        lemma_comm(c, -s);
    }
}

/// The products of row entry `x` and column entry `r`, over all columns of the state.
pub open spec fn cross(st: Jacobi<real>, x: int, r: int) -> real {
    sum(st.a.len() as int, |j: int| st.v[j][x] * st.a[j][r])
}

/// The products of row entries `x` and `y`, over all rows of the state.
pub open spec fn gram(st: Jacobi<real>, x: int, y: int) -> real {
    sum(st.v.len() as int, |j: int| st.v[j][x] * st.v[j][y])
}

/// The state is the matrix with columns `cols`, turned: the rotations are orthogonal, and taking
/// them back gives the matrix.
pub open spec fn turns(st: Jacobi<real>, cols: Seq<Seq<real>>, n: int) -> bool {
    let m = cols.len() as int;
    &&& shaped(st, n, m)
    &&& rows_orthonormal(st.v)
    &&& forall|x: int, r: int| 0 <= x < m && 0 <= r < n ==> #[trigger] cross(st, x, r) == cols[x][r]
    &&& forall|x: int, y: int|
        0 <= x < m && 0 <= y < m ==> #[trigger] gram(st, x, y) == delta(x, y)
}

pub proof fn lemma_pair_turns(
    lanes: bool,
    st: Jacobi<real>,
    cols: Seq<Seq<real>>,
    n: int,
    p: int,
    q: int,
)
    requires
        roots_exist(),
        turns(st, cols, n),
        0 <= p < q < cols.len(),
    ensures
        turns(pair_step(lanes, st, p, q), cols, n),
{
    let m = cols.len() as int;
    lemma_pair_shape(lanes, st, n, m, p, q);
    if !settled(lanes, st.a[p], st.a[q]) {
        let t = tangent(lanes, st.a[p], st.a[q]);
        let c = cosine(t);
        let s = t * c;
        lemma_cosine(t);
        lemma_turned_rows(lanes, st.v, m, p, q, c, s);
        let st2 = pair_step(lanes, st, p, q);
        assert forall|x: int, r: int| 0 <= x < m && 0 <= r < n implies #[trigger] cross(st2, x, r)
            == cols[x][r] by {
            lemma_turned_sum(lanes, st.v, st.a, p, q, c, s, x, r);
            assert(cross(st, x, r) == cols[x][r]);
        }
        assert forall|x: int, y: int| 0 <= x < m && 0 <= y < m implies #[trigger] gram(st2, x, y)
            == delta(x, y) by {
            lemma_turned_sum(lanes, st.v, st.v, p, q, c, s, x, y);
            assert(gram(st, x, y) == delta(x, y));
        }
    }
}

pub proof fn lemma_row_turns(
    lanes: bool,
    st: Jacobi<real>,
    cols: Seq<Seq<real>>,
    n: int,
    p: int,
    q: int,
)
    requires
        roots_exist(),
        turns(st, cols, n),
        0 <= p < cols.len(),
        q <= cols.len(),
    ensures
        turns(row_steps(lanes, st, p, q), cols, n),
    decreases q - p,
{
    if q > p + 1 {
        lemma_row_turns(lanes, st, cols, n, p, q - 1);
        lemma_pair_turns(lanes, row_steps(lanes, st, p, q - 1), cols, n, p, q - 1);
    }
}

pub proof fn lemma_sweep_turns(
    lanes: bool,
    st: Jacobi<real>,
    cols: Seq<Seq<real>>,
    n: int,
    p: int,
)
    requires
        roots_exist(),
        turns(st, cols, n),
        p <= cols.len(),
    ensures
        turns(sweep_rows(lanes, st, cols.len() as int, p), cols, n),
    decreases p,
{
    let m = cols.len() as int;
    if p > 0 {
        lemma_sweep_turns(lanes, st, cols, n, p - 1);
        lemma_row_turns(lanes, sweep_rows(lanes, st, m, p - 1), cols, n, p - 1, m);
    }
}

pub proof fn lemma_jacobi_turns(
    lanes: bool,
    st: Jacobi<real>,
    cols: Seq<Seq<real>>,
    n: int,
    sweeps: int,
)
    requires
        roots_exist(),
        turns(st, cols, n),
    ensures
        turns(jacobi(lanes, st, cols.len() as int, sweeps), cols, n),
    decreases sweeps,
{
    let m = cols.len() as int;
    if sweeps > 0 {
        lemma_jacobi_turns(lanes, st, cols, n, sweeps - 1);
        lemma_sweep_turns(lanes, jacobi(lanes, st, m, sweeps - 1), cols, n, m);
    }
}

/// Before the first sweep the state is the matrix itself.
pub proof fn lemma_unturned(data: Seq<real>, n: int, m: int)
    requires
        0 <= n,
        0 <= m,
    ensures
        turns(
            unturned::<real, real>(data, n, m),
            unturned::<real, real>(data, n, m).a,
            n,
        ),
{
    let st = unturned::<real, real>(data, n, m);
    assert forall|x: int, r: int| 0 <= x < m && 0 <= r < n implies #[trigger] cross(st, x, r)
        == st.a[x][r] by {
        let f = |j: int| st.v[j][x] * st.a[j][r];
        assert forall|j: int| 0 <= j < m && j != x implies #[trigger] f(j) == 0real by {
            lemma_zero(st.a[j][r]);
        }
        lemma_sum_single(m, f, x);
        lemma_one(st.a[x][r]);
    }
    assert forall|x: int, y: int| 0 <= x < m && 0 <= y < m implies #[trigger] gram(st, x, y)
        == delta(x, y) by {
        let f = |j: int| st.v[j][x] * st.v[j][y];
        assert forall|j: int| 0 <= j < m && j != x implies #[trigger] f(j) == 0real by {
            lemma_zero(st.v[j][y]);
        }
        lemma_sum_single(m, f, x);
        lemma_one(st.v[x][y]);
    }
    assert forall|i: int, j: int| 0 <= i < m && 0 <= j < m implies inner(
        #[trigger] st.v[i],
        #[trigger] st.v[j],
    ) == delta(i, j) by {
        lemma_axes(m, i, j);
    }
}

/// What the state after the sweeps is.
proof fn lemma_svd_state(lanes: bool, data: Seq<real>, n: int, m: int, sweeps: int)
    requires
        roots_exist(),
        0 <= n,
        0 <= m,
    ensures
        turns(
            svd_state::<real, real>(lanes, data, n, m, sweeps),
            unturned::<real, real>(data, n, m).a,
            n,
        ),
{
    lemma_unturned(data, n, m);
    let st = unturned::<real, real>(data, n, m);
    lemma_jacobi_turns(lanes, st, st.a, n, sweeps);
}

/// A sum over the ranking is the sum over the columns.
pub proof fn lemma_ranked_sum(sigma: Seq<real>, n: int, f: spec_fn(int) -> real)
    requires
        0 <= n,
    ensures
        sum(n, |i: int| f(ranked(sigma, n)[i])) == sum(n, f),
    decreases n,
{
    let g = |i: int| f(ranked(sigma, n)[i]);
    if n > 0 {
        lemma_ranked_sum(sigma, n - 1, f);
        lemma_ranked(sigma, n - 1);
        let order = ranked(sigma, n - 1);
        let at = place(sigma, order, sigma[n - 1], order.len() as int);
        lemma_place(sigma, order, sigma[n - 1], order.len() as int);
        lemma_sum_insert(order, at, n - 1, f);
        assert(ranked(sigma, n) == order.insert(at, n - 1));
        lemma_sum_ext(n, g, |i: int| f(order.insert(at, n - 1)[i]));
        lemma_sum_ext(n - 1, |i: int| f(order[i]), |i: int| f(ranked(sigma, n - 1)[i]));
    } else {
        assert(sum(0, g) == 0real && sum(0, f) == 0real);
    }
}

/// No column is ranked twice.
pub proof fn lemma_ranked_distinct(sigma: Seq<real>, n: int)
    requires
        0 <= n,
    ensures
        forall|i: int, j: int|
            0 <= i < j < n ==> #[trigger] ranked(sigma, n)[i] != #[trigger] ranked(sigma, n)[j],
    decreases n,
{
    if n > 0 {
        lemma_ranked_distinct(sigma, n - 1);
        lemma_ranked(sigma, n - 1);
        let order = ranked(sigma, n - 1);
        lemma_place(sigma, order, sigma[n - 1], order.len() as int);
    }
}

/// Where a number goes: behind those that are at least as large, before those that are smaller.
proof fn lemma_place_real(sigma: Seq<real>, order: Seq<int>, x: real, at: int)
    requires
        0 <= at <= order.len(),
    ensures
        0 <= place(sigma, order, x, at) <= at,
        forall|i: int|
            place(sigma, order, x, at) <= i < at ==> sigma[#[trigger] order[i]] < x,
        place(sigma, order, x, at) > 0 ==> sigma[order[place(sigma, order, x, at) - 1]] >= x,
    decreases at,
{
    if at > 0 {
        lemma_place_real(sigma, order, x, at - 1);
    }
}

/// The ranking is by length, the longest first.
pub proof fn lemma_ranked_descending(sigma: Seq<real>, n: int)
    requires
        0 <= n <= sigma.len(),
    ensures
        forall|i: int, j: int|
            0 <= i < j < n ==> sigma[#[trigger] ranked(sigma, n)[j]] <= sigma[#[trigger] ranked(
                sigma,
                n,
            )[i]],
    decreases n,
{
    if n > 0 {
        lemma_ranked_descending(sigma, n - 1);
        lemma_ranked(sigma, n - 1);
        let order = ranked(sigma, n - 1);
        let x = sigma[n - 1];
        lemma_place_real(sigma, order, x, order.len() as int);
        let at = place(sigma, order, x, order.len() as int);
        let longer = ranked(sigma, n);
        assert(longer == order.insert(at, n - 1));
        assert forall|i: int, j: int| 0 <= i < j < n implies sigma[#[trigger] longer[j]]
            <= sigma[#[trigger] longer[i]] by {
            if j == at {
                assert(longer[i] == order[i]);
                if i < at - 1 {
                    assert(sigma[order[at - 1]] <= sigma[order[i]]);
                }
            } else if i == at {
                assert(longer[j] == order[j - 1]);
            } else {
                let i2 = if i < at {
                    i
                } else {
                    i - 1
                };
                let j2 = if j < at {
                    j
                } else {
                    j - 1
                };
                assert(longer[i] == order[i2] && longer[j] == order[j2]);
            }
        }
    }
}

/// What a length is.
pub proof fn lemma_length(col: Seq<real>)
    requires
        roots_exist(),
    ensures
        length(col) >= 0real,
        length(col) * length(col) == inner(col, col),
        length(col) == 0real ==> forall|r: int| 0 <= r < col.len() ==> #[trigger] col[r] == 0real,
{
    let n = col.len() as int;
    lemma_running_dot(0real, col, col, 0, n);
    assert(sum(0, |i: int| col[i] * col[i]) == 0real);
    lemma_sum_squares(col, n);
    lemma_root(inner(col, col));
    lemma_zero(0real);
}

/// A vector of the completed basis is orthogonal to the columns, and these vectors are orthonormal.
proof fn lemma_completed(lanes: bool, cols: Seq<Seq<real>>, n: int, i: int)
    requires
        roots_exist(),
        tall(cols, n),
        cols.len() <= i < n,
    ensures
        completed(lanes, cols, n, i).len() == n,
        forall|j: int|
            0 <= j < cols.len() ==> inner(completed(lanes, cols, n, i), #[trigger] cols[j])
                == 0real,
        forall|i2: int|
            cols.len() <= i2 < n ==> inner(
                completed(lanes, cols, n, i),
                #[trigger] completed(lanes, cols, n, i2),
            ) == delta(i, i2),
{
    let k = cols.len() as int;
    let ms = house_mirrors(lanes, cols, n);
    let e = axis::<real>(n, i);
    lemma_all_mirrors(lanes, cols, n);
    lemma_unwound(lanes, cols, n, k, e, k);
    lemma_rewound_len(ms, e, k);
    assert forall|j: int| 0 <= j < k implies inner(
        completed(lanes, cols, n, i),
        #[trigger] cols[j],
    ) == 0real by {
        let y = wound(ms, cols[j], k);
        lemma_column_wound(lanes, cols, n, k, j);
        lemma_rewound_wound(ms, n, cols[j], k);
        lemma_rewound_inner(ms, n, e, y, k);
        let f = |r: int| e[r] * y[r];
        assert forall|r: int| 0 <= r < n && r != i implies #[trigger] f(r) == 0real by {
            lemma_zero(y[r]);
        }
        lemma_sum_single(n, f, i);
        lemma_one(y[i]);
    }
    assert forall|i2: int| k <= i2 < n implies inner(
        completed(lanes, cols, n, i),
        #[trigger] completed(lanes, cols, n, i2),
    ) == delta(i, i2) by {
        let e2 = axis::<real>(n, i2);
        lemma_unwound(lanes, cols, n, k, e2, k);
        lemma_rewound_inner(ms, n, e, e2, k);
        lemma_axes(n, i, i2);
    }
}

/// In exact arithmetic the triplets with a direction are the first ones: those whose singular
/// values are not 0.
proof fn lemma_lasting(lanes: bool, st: Jacobi<real>, upto: int)
    requires
        roots_exist(),
        0 <= upto,
        forall|i: int, j: int|
            0 <= i < j < upto ==> #[trigger] singular_value(st, j) <= #[trigger] singular_value(
                st,
                i,
            ),
    ensures
        lasting(lanes, st, upto).len() <= upto,
        forall|c: int|
            0 <= c < lasting(lanes, st, upto).len() ==> #[trigger] lasting(lanes, st, upto)[c] == c,
        forall|i: int|
            0 <= i < lasting(lanes, st, upto).len() ==> #[trigger] singular_value(st, i) > 0real,
        forall|i: int|
            lasting(lanes, st, upto).len() <= i < upto ==> #[trigger] singular_value(st, i)
                == 0real,
        forall|i: int|
            0 <= i < upto ==> #[trigger] spent(lanes, st, i) == (singular_value(st, i) == 0real),
    decreases upto,
{
    if upto > 0 {
        let i = upto - 1;
        lemma_lasting(lanes, st, i);
        lemma_length(st.a[triplet(st, i)]);
        assert(spent(lanes, st, i) == (singular_value(st, i) == 0real));
        let p = lasting(lanes, st, i).len() as int;
        if p < i {
            assert(singular_value(st, p) == 0real);
            assert(singular_value(st, i) <= singular_value(st, p));
        }
    }
}

/// What the ranking means for the state after the sweeps: from the first singular value that is 0
/// on, all of them are.
pub proof fn lemma_ranks(lanes: bool, data: Seq<real>, n: int, m: int, sweeps: int)
    requires
        roots_exist(),
        0 <= n,
        0 <= m,
    ensures
        ({
            let st = svd_state::<real, real>(lanes, data, n, m, sweeps);
            let p = lasting(lanes, st, m).len() as int;
            &&& turns(st, unturned::<real, real>(data, n, m).a, n)
            &&& 0 <= p <= m
            &&& forall|i: int| 0 <= i < m ==> 0 <= #[trigger] triplet(st, i) < m
            &&& forall|i: int, j: int|
                0 <= i < j < m ==> #[trigger] triplet(st, i) != #[trigger] triplet(st, j)
            &&& forall|i: int, j: int|
                0 <= i < j < m ==> #[trigger] singular_value(st, j) <= #[trigger] singular_value(
                    st,
                    i,
                )
            &&& forall|i: int| 0 <= i < p ==> #[trigger] singular_value(st, i) > 0real
            &&& forall|i: int| p <= i < m ==> #[trigger] singular_value(st, i) == 0real
            &&& forall|i: int|
                0 <= i < m ==> #[trigger] spent(lanes, st, i) == (singular_value(st, i) == 0real)
            &&& forall|c: int| 0 <= c < p ==> #[trigger] lasting(lanes, st, m)[c] == c
        }),
{
    let st = svd_state::<real, real>(lanes, data, n, m, sweeps);
    lemma_svd_state(lanes, data, n, m, sweeps);
    let sigma = lengths(st.a);
    lemma_ranked(sigma, m);
    lemma_ranked_distinct(sigma, m);
    lemma_ranked_descending(sigma, m);
    let order = ranked(sigma, m);
    assert forall|i: int| 0 <= i < m implies 0 <= #[trigger] triplet(st, i) < m by {
        assert(triplet(st, i) == order[i]);
    }
    assert forall|i: int, j: int| 0 <= i < j < m implies #[trigger] triplet(st, i)
        != #[trigger] triplet(st, j) by {
        assert(order[i] != order[j]);
    }
    assert forall|i: int, j: int| 0 <= i < j < m implies #[trigger] singular_value(st, j)
        <= #[trigger] singular_value(st, i) by {
        assert(sigma[order[j]] <= sigma[order[i]]);
    }
    lemma_lasting(lanes, st, m);
}

/// An entry of a column is that of the left singular vector times the singular value.
pub proof fn lemma_image(lanes: bool, data: Seq<real>, n: int, m: int, sweeps: int, r: int, i: int)
    requires
        roots_exist(),
        0 <= r < n,
        0 <= i < m,
    ensures
        ({
            let st = svd_state::<real, real>(lanes, data, n, m, sweeps);
            left_entry(lanes, st, n, r, i) * singular_value(st, i) == st.a[triplet(st, i)][r]
        }),
{
    let st = svd_state::<real, real>(lanes, data, n, m, sweeps);
    lemma_ranks(lanes, data, n, m, sweeps);
    let col = st.a[triplet(st, i)];
    lemma_length(col);
    if !spent(lanes, st, i) {
        lemma_over_times(col[r], singular_value(st, i));
    } else {
        lemma_zero(left_entry(lanes, st, n, r, i));
    }
}

/// All triplets together are the matrix: `A[r][j] = sum_i left(r, i) s(i) right(j, i)`. With the
/// first `kk` of them, what is missing is the sum of those that were left out.
pub proof fn law_svd_product(
    lanes: bool,
    data: Seq<real>,
    n: int,
    m: int,
    sweeps: int,
    kk: int,
    r: int,
    j: int,
)
    requires
        roots_exist(),
        0 <= r < n,
        0 <= j < m,
        0 <= kk <= m,
    ensures
        ({
            let st = svd_state::<real, real>(lanes, data, n, m, sweeps);
            let term = |i: int|
                left_entry(lanes, st, n, r, i) * singular_value(st, i) * right_entry(st, j, i);
            &&& data[cell(r, m, j)] == sum(m, term)
            &&& data[cell(r, m, j)] == sum(kk, term) + sum(m - kk, |i: int| term(kk + i))
        }),
{
    let st = svd_state::<real, real>(lanes, data, n, m, sweeps);
    let term = |i: int|
        left_entry(lanes, st, n, r, i) * singular_value(st, i) * right_entry(st, j, i);
    let cols = unturned::<real, real>(data, n, m).a;
    lemma_svd_state(lanes, data, n, m, sweeps);
    assert(cross(st, j, r) == cols[j][r]);
    let f = |x: int| st.v[x][j] * st.a[x][r];
    let sigma = lengths(st.a);
    lemma_ranked_sum(sigma, m, f);
    lemma_ranked(sigma, m);
    let g = |i: int| f(ranked(sigma, m)[i]);
    assert forall|i: int| 0 <= i < m implies #[trigger] term(i) == g(i) by {
        let x = triplet(st, i);
        assert(x == ranked(sigma, m)[i]);
        lemma_image(lanes, data, n, m, sweeps, r, i);
        lemma_comm(st.a[x][r], st.v[x][j]);
    }
    lemma_sum_ext(m, term, g);
    lemma_sum_split(m - kk, kk, term);
}

/// The right singular vectors are orthonormal.
pub proof fn law_right_orthonormal(
    lanes: bool,
    data: Seq<real>,
    n: int,
    m: int,
    sweeps: int,
    i: int,
    i2: int,
)
    requires
        roots_exist(),
        0 <= n,
        0 <= i < m,
        0 <= i2 < m,
    ensures
        ({
            let st = svd_state::<real, real>(lanes, data, n, m, sweeps);
            sum(m, |j: int| right_entry(st, j, i) * right_entry(st, j, i2)) == delta(i, i2)
        }),
{
    let st = svd_state::<real, real>(lanes, data, n, m, sweeps);
    lemma_svd_state(lanes, data, n, m, sweeps);
    let sigma = lengths(st.a);
    lemma_ranked(sigma, m);
    lemma_ranked_distinct(sigma, m);
    let (x, y) = (triplet(st, i), triplet(st, i2));
    assert(x == ranked(sigma, m)[i] && y == ranked(sigma, m)[i2]);
    assert(inner(st.v[x], st.v[y]) == delta(x, y));
    assert(x == y <==> i == i2);
    lemma_sum_ext(
        m,
        |j: int| st.v[x][j] * st.v[y][j],
        |j: int| right_entry(st, j, i) * right_entry(st, j, i2),
    );
}

/// The right singular vectors are complete: taken over all of them, the products of two entries
/// are those of the unit matrix.
pub proof fn law_right_complete(
    lanes: bool,
    data: Seq<real>,
    n: int,
    m: int,
    sweeps: int,
    x: int,
    y: int,
)
    requires
        roots_exist(),
        0 <= n,
        0 <= x < m,
        0 <= y < m,
    ensures
        ({
            let st = svd_state::<real, real>(lanes, data, n, m, sweeps);
            sum(m, |i: int| right_entry(st, x, i) * right_entry(st, y, i)) == delta(x, y)
        }),
{
    let st = svd_state::<real, real>(lanes, data, n, m, sweeps);
    lemma_svd_state(lanes, data, n, m, sweeps);
    assert(gram(st, x, y) == delta(x, y));
    let sigma = lengths(st.a);
    let f = |j: int| st.v[j][x] * st.v[j][y];
    lemma_ranked_sum(sigma, m, f);
    lemma_sum_ext(
        m,
        |i: int| f(ranked(sigma, m)[i]),
        |i: int| right_entry(st, x, i) * right_entry(st, y, i),
    );
}

/// The singular values come in descending order, and none is negative.
pub proof fn law_values_descending(
    lanes: bool,
    data: Seq<real>,
    n: int,
    m: int,
    sweeps: int,
    i: int,
    i2: int,
)
    requires
        roots_exist(),
        0 <= n,
        0 <= i <= i2 < m,
    ensures
        ({
            let st = svd_state::<real, real>(lanes, data, n, m, sweeps);
            0real <= singular_value(st, i2) <= singular_value(st, i)
        }),
{
    let st = svd_state::<real, real>(lanes, data, n, m, sweeps);
    lemma_ranks(lanes, data, n, m, sweeps);
    lemma_length(st.a[triplet(st, i2)]);
}

/// The matrix takes a right singular vector to its left one: `A right = s left`.
pub proof fn law_svd_image(
    lanes: bool,
    data: Seq<real>,
    n: int,
    m: int,
    sweeps: int,
    r: int,
    i: int,
)
    requires
        roots_exist(),
        0 <= r < n,
        0 <= i < m,
    ensures
        ({
            let st = svd_state::<real, real>(lanes, data, n, m, sweeps);
            sum(m, |j: int| data[cell(r, m, j)] * right_entry(st, j, i)) == singular_value(st, i)
                * left_entry(lanes, st, n, r, i)
        }),
{
    let st = svd_state::<real, real>(lanes, data, n, m, sweeps);
    lemma_svd_state(lanes, data, n, m, sweeps);
    let cols = unturned::<real, real>(data, n, m).a;
    let sigma = lengths(st.a);
    lemma_ranked(sigma, m);
    let x = triplet(st, i);
    assert(x == ranked(sigma, m)[i]);
    // Row r of A is the combination of the rows of v with the entries a[l][r].
    let line = Seq::new(m as nat, |j: int| data[cell(r, m, j)]);
    let coef = |l: int| st.a[l][r];
    assert forall|j: int| 0 <= j < m implies #[trigger] line[j] == sum(
        m,
        |l: int| st.v[l][j] * coef(l),
    ) by {
        assert(cross(st, j, r) == cols[j][r]);
        lemma_sum_ext(m, |l: int| st.v[l][j] * coef(l), |l: int| st.v[l][j] * st.a[l][r]);
    }
    lemma_orthonormal_coefficient(st.v, coef, line, x);
    let f = |j: int| data[cell(r, m, j)] * right_entry(st, j, i);
    let g = |j: int| st.v[x][j] * line[j];
    assert forall|j: int| 0 <= j < m implies #[trigger] f(j) == g(j) by {
        lemma_comm(line[j], st.v[x][j]);
    }
    lemma_sum_ext(m, f, g);
    lemma_image(lanes, data, n, m, sweeps, r, i);
    lemma_comm(left_entry(lanes, st, n, r, i), singular_value(st, i));
}

/// The inner product of two left singular vectors.
pub open spec fn left_inner(lanes: bool, st: Jacobi<real>, n: int, i: int, i2: int) -> real {
    sum(n, |r: int| left_entry(lanes, st, n, r, i) * left_entry(lanes, st, n, r, i2))
}

/// The inner product of two columns, by their directions.
pub proof fn lemma_left_inner(
    lanes: bool,
    data: Seq<real>,
    n: int,
    m: int,
    sweeps: int,
    i: int,
    i2: int,
)
    requires
        roots_exist(),
        0 <= n,
        0 <= i < m,
        0 <= i2 < m,
    ensures
        ({
            let st = svd_state::<real, real>(lanes, data, n, m, sweeps);
            inner(st.a[triplet(st, i)], st.a[triplet(st, i2)]) == (singular_value(st, i)
                * singular_value(st, i2)) * left_inner(lanes, st, n, i, i2)
        }),
{
    let st = svd_state::<real, real>(lanes, data, n, m, sweeps);
    lemma_ranks(lanes, data, n, m, sweeps);
    let (x, y) = (st.a[triplet(st, i)], st.a[triplet(st, i2)]);
    let (s, t) = (singular_value(st, i), singular_value(st, i2));
    let f = |r: int| x[r] * y[r];
    let h = |r: int| left_entry(lanes, st, n, r, i) * left_entry(lanes, st, n, r, i2);
    let st_ = s * t;
    let g = |r: int| st_ * h(r);
    assert forall|r: int| 0 <= r < n implies #[trigger] f(r) == g(r) by {
        let (u, w) = (left_entry(lanes, st, n, r, i), left_entry(lanes, st, n, r, i2));
        lemma_image(lanes, data, n, m, sweeps, r, i);
        lemma_image(lanes, data, n, m, sweeps, r, i2);
        lemma_comm(u, s);
        lemma_comm(w, t);
        lemma_regroup(s, u, t, w);
    }
    lemma_sum_ext(n, f, g);
    lemma_sum_scale(n, h, st_);
}

/// The left singular vector of a column with a direction has length 1.
proof fn lemma_live_unit(lanes: bool, data: Seq<real>, n: int, m: int, sweeps: int, i: int)
    requires
        roots_exist(),
        0 <= n,
        0 <= i < m,
        singular_value(svd_state::<real, real>(lanes, data, n, m, sweeps), i) != 0real,
    ensures
        left_inner(lanes, svd_state::<real, real>(lanes, data, n, m, sweeps), n, i, i) == 1real,
{
    let st = svd_state::<real, real>(lanes, data, n, m, sweeps);
    lemma_ranks(lanes, data, n, m, sweeps);
    lemma_left_inner(lanes, data, n, m, sweeps, i, i);
    let col = st.a[triplet(st, i)];
    lemma_length(col);
    let s = singular_value(st, i);
    lemma_positive(s, s);
    let ss = s * s;
    lemma_one(ss);
    lemma_cancel(ss, left_inner(lanes, st, n, i, i), 1real);
}

/// Before a triplet without a direction come all those with one.
proof fn lemma_rest_count(lanes: bool, data: Seq<real>, n: int, m: int, sweeps: int, i: int)
    requires
        roots_exist(),
        0 <= n,
        0 <= i < m,
        singular_value(svd_state::<real, real>(lanes, data, n, m, sweeps), i) == 0real,
    ensures
        ({
            let st = svd_state::<real, real>(lanes, data, n, m, sweeps);
            lasting(lanes, st, i).len() == lasting(lanes, st, m).len()
        }),
{
    let st = svd_state::<real, real>(lanes, data, n, m, sweeps);
    lemma_ranks(lanes, data, n, m, sweeps);
    lemma_lasting(lanes, st, i);
    let (p, q) = (lasting(lanes, st, i).len() as int, lasting(lanes, st, m).len() as int);
    if p < q {
        assert(singular_value(st, p) > 0real);
        if p < i {
            assert(singular_value(st, p) == 0real);
        }
    }
    if q < p {
        assert(singular_value(st, q) > 0real);
        assert(singular_value(st, q) == 0real);
    }
}

/// The left singular vectors of two triplets, the first without a direction.
proof fn lemma_spent(lanes: bool, data: Seq<real>, n: int, m: int, sweeps: int, i: int, i2: int)
    requires
        roots_exist(),
        0 <= i < m,
        0 <= i2 < m,
        i < n,
        i2 < n,
        singular_value(svd_state::<real, real>(lanes, data, n, m, sweeps), i) == 0real,
    ensures
        left_inner(lanes, svd_state::<real, real>(lanes, data, n, m, sweeps), n, i, i2) == delta(
            i,
            i2,
        ),
        left_inner(lanes, svd_state::<real, real>(lanes, data, n, m, sweeps), n, i2, i) == delta(
            i,
            i2,
        ),
{
    let st = svd_state::<real, real>(lanes, data, n, m, sweeps);
    lemma_ranks(lanes, data, n, m, sweeps);
    let all = lasting(lanes, st, m);
    let p = all.len() as int;
    let dirs = directions_of(st, all);
    assert(i >= p);
    lemma_rest_count(lanes, data, n, m, sweeps, i);
    assert forall|c: int| 0 <= c < dirs.len() implies (#[trigger] dirs[c]).len() == n by {
        assert(all[c] == c);
        assert(0 <= triplet(st, c) < m);
    }
    lemma_completed(lanes, dirs, n, i);
    let x = left_vector(lanes, st, n, i);
    let y = left_vector(lanes, st, n, i2);
    if i2 < p {
        assert(all[i2] == i2);
        assert(y == dirs[i2]);
    } else {
        lemma_rest_count(lanes, data, n, m, sweeps, i2);
        assert(y == completed(lanes, dirs, n, i2));
        lemma_completed(lanes, dirs, n, i2);
    }
    assert(inner(x, y) == delta(i, i2));
    lemma_inner_comm(x, y);
    lemma_sum_ext(
        n,
        |r: int| x[r] * y[r],
        |r: int| left_entry(lanes, st, n, r, i) * left_entry(lanes, st, n, r, i2),
    );
    lemma_sum_ext(
        n,
        |r: int| y[r] * x[r],
        |r: int| left_entry(lanes, st, n, r, i2) * left_entry(lanes, st, n, r, i),
    );
}

/// The left singular vectors have length 1, whatever the rank of the matrix.
pub proof fn law_left_unit(lanes: bool, data: Seq<real>, n: int, m: int, sweeps: int, i: int)
    requires
        roots_exist(),
        0 <= i < lesser(n, m),
    ensures
        left_inner(lanes, svd_state::<real, real>(lanes, data, n, m, sweeps), n, i, i) == 1real,
{
    let st = svd_state::<real, real>(lanes, data, n, m, sweeps);
    if singular_value(st, i) == 0real {
        lemma_spent(lanes, data, n, m, sweeps, i, i);
    } else {
        lemma_live_unit(lanes, data, n, m, sweeps, i);
    }
}

/// Products with a common positive factor are in the order of the other factors.
pub proof fn lemma_order_cancel(x: real, y: real, f: real)
    requires
        f > 0real,
        f * x <= f * y,
    ensures
        x <= y,
{
    if x > y {
        lemma_positive(f, x - y);
        lemma_spread_sub(f, x, y);
    }
}

/// Two columns that are settled are orthogonal up to the threshold, relative to their lengths.
pub proof fn lemma_settled(lanes: bool, x: Seq<real>, y: Seq<real>)
    requires
        roots_exist(),
        x.len() == y.len(),
        settled(lanes, x, y),
    ensures
        inner(x, y) <= (length(x) * length(y)) * real::tenth_pow(JACOBI_PLACES),
        -inner(x, y) <= (length(x) * length(y)) * real::tenth_pow(JACOBI_PLACES),
{
    lemma_wide_dot(lanes, x, x);
    lemma_wide_dot(lanes, y, y);
    lemma_wide_dot(lanes, x, y);
    lemma_length(x);
    lemma_length(y);
    let (s, t) = (length(x), length(y));
    lemma_regroup(s, s, t, t);
    let st = s * t;
    lemma_not_negative(s, t);
    let square = inner(x, x) * inner(y, y);
    lemma_square(st);
    lemma_root(square);
    lemma_root_unique(square.root(), st);
    lemma_comm(st, real::tenth_pow(JACOBI_PLACES));
}

/// When the sweeps have settled all pairs, the left singular vectors are orthogonal up to the
/// threshold, whatever the rank of the matrix.
pub proof fn law_left_orthogonal(
    lanes: bool,
    data: Seq<real>,
    n: int,
    m: int,
    sweeps: int,
    i: int,
    i2: int,
)
    requires
        roots_exist(),
        0 <= i < lesser(n, m),
        0 <= i2 < lesser(n, m),
        i != i2,
        all_settled(lanes, svd_state::<real, real>(lanes, data, n, m, sweeps)),
    ensures
        -real::tenth_pow(JACOBI_PLACES) <= left_inner(
            lanes,
            svd_state::<real, real>(lanes, data, n, m, sweeps),
            n,
            i,
            i2,
        ) <= real::tenth_pow(JACOBI_PLACES),
{
    let st = svd_state::<real, real>(lanes, data, n, m, sweeps);
    let (s, t) = (singular_value(st, i), singular_value(st, i2));
    lemma_ranks(lanes, data, n, m, sweeps);
    lemma_tenth_positive(JACOBI_PLACES);
    if s == 0real {
        lemma_spent(lanes, data, n, m, sweeps, i, i2);
    } else if t == 0real {
        lemma_spent(lanes, data, n, m, sweeps, i2, i);
    } else {
        let (p, q) = (triplet(st, i), triplet(st, i2));
        if i < i2 {
            assert(p != q);
        } else {
            assert(q != p);
        }
        let (x, y) = (st.a[p], st.a[q]);
        lemma_left_inner(lanes, data, n, m, sweeps, i, i2);
        lemma_inner_comm(x, y);
        lemma_comm(length(x), length(y));
        if p < q {
            lemma_settled(lanes, x, y);
        } else {
            lemma_settled(lanes, y, x);
        }
        lemma_length(x);
        lemma_length(y);
        lemma_positive(s, t);
        let f = s * t;
        let l = left_inner(lanes, st, n, i, i2);
        let eps = real::tenth_pow(JACOBI_PLACES);
        lemma_order_cancel(l, eps, f);
        lemma_negate(l, f);
        lemma_comm(f, l);
        lemma_comm(f, -l);
        lemma_order_cancel(-l, eps, f);
    }
}

/// The squares of combinations of orthonormal vectors `vs`, with the coefficients `coef(i, r)` for
/// the combination `r`, add up to the squares of the coefficients.
pub proof fn lemma_energy(
    n: int,
    vs: Seq<Seq<real>>,
    m: int,
    coef: spec_fn(int, int) -> real,
    s: spec_fn(int) -> real,
)
    requires
        0 <= n,
        0 <= m,
        forall|i: int| 0 <= i < vs.len() ==> (#[trigger] vs[i]).len() == m,
        forall|i: int, j: int|
            0 <= i < vs.len() && 0 <= j < vs.len() ==> inner(#[trigger] vs[i], #[trigger] vs[j])
                == delta(i, j),
        forall|i: int|
            0 <= i < vs.len() ==> sum(n, |r: int| coef(i, r) * coef(i, r)) == #[trigger] s(i) * s(
                i,
            ),
    ensures
        sum(
            n,
            |r: int|
                sum(
                    m,
                    |j: int|
                        {
                            let x = sum(vs.len() as int, |i: int| vs[i][j] * coef(i, r));
                            x * x
                        },
                ),
        ) == sum(vs.len() as int, |i: int| s(i) * s(i)),
{
    let d = vs.len() as int;
    let line = |r: int|
        sum(
            m,
            |j: int|
                {
                    let x = sum(vs.len() as int, |i: int| vs[i][j] * coef(i, r));
                    x * x
                },
        );
    let square = |r: int, i: int| coef(i, r) * coef(i, r);
    let by_line = |r: int| sum(d, |i: int| square(r, i));
    assert forall|r: int| 0 <= r < n implies #[trigger] line(r) == by_line(r) by {
        let f = |i: int| coef(i, r);
        let x = Seq::new(m as nat, |j: int| sum(d, |i: int| vs[i][j] * f(i)));
        lemma_isometry(vs, f, x, f, x);
        lemma_sum_ext(d, |i: int| f(i) * f(i), |i: int| square(r, i));
        let g = |j: int|
            {
                let x = sum(vs.len() as int, |i: int| vs[i][j] * coef(i, r));
                x * x
            };
        let h = |j: int| x[j] * x[j];
        assert forall|j: int| 0 <= j < m implies #[trigger] g(j) == h(j) by {
            lemma_sum_ext(d, |i: int| vs[i][j] * coef(i, r), |i: int| vs[i][j] * f(i));
        }
        lemma_sum_ext(m, g, h);
    }
    lemma_sum_ext(n, line, by_line);
    lemma_sum_swap(n, d, square);
    let by_vector = |i: int| sum(n, |r: int| square(r, i));
    let ss = |i: int| s(i) * s(i);
    assert forall|i: int| 0 <= i < d implies #[trigger] by_vector(i) == ss(i) by {
        lemma_sum_ext(n, |r: int| square(r, i), |r: int| coef(i, r) * coef(i, r));
        assert(s(i) * s(i) == sum(n, |r: int| coef(i, r) * coef(i, r)));
    }
    lemma_sum_ext(d, by_vector, ss);
}

/// What the first `kk` triplets leave of entry `(r, j)` of the matrix.
pub open spec fn missing(
    lanes: bool,
    data: Seq<real>,
    n: int,
    m: int,
    sweeps: int,
    kk: int,
    r: int,
    j: int,
) -> real {
    let st = svd_state::<real, real>(lanes, data, n, m, sweeps);
    data[cell(r, m, j)] - sum(
        kk,
        |i: int| left_entry(lanes, st, n, r, i) * singular_value(st, i) * right_entry(st, j, i),
    )
}

/// What the first `kk` triplets leave of the matrix is as large as the singular values that were
/// left out: the squares of its entries add up to their squares.
pub proof fn law_truncation(lanes: bool, data: Seq<real>, n: int, m: int, sweeps: int, kk: int)
    requires
        roots_exist(),
        0 <= n,
        0 <= kk <= m,
    ensures
        ({
            let st = svd_state::<real, real>(lanes, data, n, m, sweeps);
            sum(
                n,
                |r: int|
                    sum(
                        m,
                        |j: int|
                            missing(lanes, data, n, m, sweeps, kk, r, j) * missing(
                                lanes,
                                data,
                                n,
                                m,
                                sweeps,
                                kk,
                                r,
                                j,
                            ),
                    ),
            ) == sum(m - kk, |i: int| singular_value(st, kk + i) * singular_value(st, kk + i))
        }),
{
    let st = svd_state::<real, real>(lanes, data, n, m, sweeps);
    lemma_ranks(lanes, data, n, m, sweeps);
    let d = m - kk;
    let vs = Seq::new(d as nat, |i: int| st.v[triplet(st, kk + i)]);
    let coef = |i: int, r: int| left_entry(lanes, st, n, r, kk + i) * singular_value(st, kk + i);
    let s = |i: int| singular_value(st, kk + i);
    assert forall|i: int| 0 <= i < d implies (#[trigger] vs[i]).len() == m by {
        assert(0 <= triplet(st, kk + i) < m);
    }
    assert forall|i: int, j: int| 0 <= i < d && 0 <= j < d implies inner(
        #[trigger] vs[i],
        #[trigger] vs[j],
    ) == delta(i, j) by {
        let (x, y) = (triplet(st, kk + i), triplet(st, kk + j));
        assert(inner(st.v[x], st.v[y]) == delta(x, y));
        if i < j {
            assert(x != y);
        } else if j < i {
            assert(y != x);
        }
    }
    assert forall|i: int| 0 <= i < d implies sum(n, |r: int| coef(i, r) * coef(i, r))
        == #[trigger] s(i) * s(i) by {
        let col = st.a[triplet(st, kk + i)];
        lemma_length(col);
        let f = |r: int| coef(i, r) * coef(i, r);
        assert forall|r: int| 0 <= r < n implies #[trigger] f(r) == col[r] * col[r] by {
            lemma_image(lanes, data, n, m, sweeps, r, kk + i);
        }
        lemma_sum_ext(n, f, |r: int| col[r] * col[r]);
    }
    lemma_energy(n, vs, m, coef, s);
    let left = |r: int|
        sum(
            m,
            |j: int|
                missing(lanes, data, n, m, sweeps, kk, r, j) * missing(
                    lanes,
                    data,
                    n,
                    m,
                    sweeps,
                    kk,
                    r,
                    j,
                ),
        );
    let right = |r: int|
        sum(
            m,
            |j: int|
                {
                    let x = sum(vs.len() as int, |i: int| vs[i][j] * coef(i, r));
                    x * x
                },
        );
    assert forall|r: int| 0 <= r < n implies #[trigger] left(r) == right(r) by {
        let f = |j: int|
            missing(lanes, data, n, m, sweeps, kk, r, j) * missing(
                lanes,
                data,
                n,
                m,
                sweeps,
                kk,
                r,
                j,
            );
        let g = |j: int|
            {
                let x = sum(vs.len() as int, |i: int| vs[i][j] * coef(i, r));
                x * x
            };
        assert forall|j: int| 0 <= j < m implies #[trigger] f(j) == g(j) by {
            law_svd_product(lanes, data, n, m, sweeps, kk, r, j);
            let term = |i: int|
                left_entry(lanes, st, n, r, i) * singular_value(st, i) * right_entry(st, j, i);
            let rest = |i: int| term(kk + i);
            let h = |i: int| vs[i][j] * coef(i, r);
            assert forall|i: int| 0 <= i < d implies #[trigger] rest(i) == h(i) by {
                lemma_comm(coef(i, r), vs[i][j]);
            }
            lemma_sum_ext(d, rest, h);
        }
        lemma_sum_ext(m, f, g);
    }
    lemma_sum_ext(n, left, right);
    lemma_sum_ext(
        d,
        |i: int| s(i) * s(i),
        |i: int| singular_value(st, kk + i) * singular_value(st, kk + i),
    );
}

/// The tangent solves `1 - t^2 + 2 zeta t = 0`, where `zeta` does not have the sign of `sg`.
proof fn lemma_tangent(zeta: real, sg: real, g: real, t: real)
    requires
        sg == 1real || sg == -1real,
        zeta * sg <= 0real,
        g > 0real,
        g * g == 1real + zeta * zeta,
        t * (zeta.magnitude() + g) == sg,
    ensures
        1real - t * t + (zeta + zeta) * t == 0real,
{
    let z = zeta.magnitude();
    let d = z + g;
    lemma_one(zeta);
    assert(z == -(zeta * sg));
    lemma_comm(zeta, sg);
    let zz = zeta * zeta;
    assert(z * z == zz) by {
        lemma_negate(zeta, -zeta);
        lemma_negate(zeta, zeta);
        lemma_comm(zeta, -zeta);
    }
    // d d = 1 + 2 z d
    let dd = d * d;
    let zd = z * d;
    assert(dd == 1real + zd + zd) by {
        lemma_spread(d, z, g);
        lemma_comm(d, z);
        lemma_comm(d, g);
        lemma_spread(z, z, g);
        lemma_spread(g, z, g);
        lemma_comm(g, z);
    }
    // (1 - t t + 2 zeta t) d d = 0
    let td = t * d;
    let e = 1real - t * t + (zeta + zeta) * t;
    assert(e * dd == 0real) by {
        let tt = t * t;
        let w = zeta + zeta;
        let wt = w * t;
        assert((1real - tt + wt) * dd == dd - tt * dd + wt * dd) by {
            let u = 1real - tt;
            lemma_comm(u + wt, dd);
            lemma_spread(dd, u, wt);
            lemma_comm(dd, wt);
            lemma_spread_sub(dd, 1real, tt);
            lemma_comm(dd, tt);
            lemma_one(dd);
        }
        assert(tt * dd == 1real) by {
            lemma_regroup(t, t, d, d);
            lemma_one(1real);
            lemma_one(-1real);
        }
        assert(wt * dd == -(zd + zd)) by {
            // w t d d = w sg d
            lemma_assoc(w, t, dd);
            lemma_assoc(t, d, d);
            assert(t * dd == sg * d);
            lemma_assoc(w, sg, d);
            assert(w * sg == -(z + z)) by {
                lemma_comm(w, sg);
                lemma_spread(sg, zeta, zeta);
            }
            lemma_negate(z + z, d);
            lemma_comm(z + z, d);
            lemma_spread(d, z, z);
            lemma_comm(d, z);
        }
    }
    lemma_positive(d, d);
    lemma_no_divisors(e, dd);
}

/// A rotation makes its pair orthogonal.
pub proof fn law_rotation(lanes: bool, x: Seq<real>, y: Seq<real>)
    requires
        roots_exist(),
        x.len() == y.len(),
        !settled(lanes, x, y),
    ensures
        ({
            let t = tangent(lanes, x, y);
            let c = cosine(t);
            let s = t * c;
            inner(rotated_first(x, y, c, s, wide_whole(lanes, x.len() as int)), rotated_second(
                x,
                y,
                c,
                s,
                wide_whole(lanes, x.len() as int),
            )) == 0real
        }),
{
    lemma_wide_dot(lanes, x, x);
    lemma_wide_dot(lanes, y, y);
    lemma_wide_dot(lanes, x, y);
    let n = x.len() as int;
    lemma_sum_squares(x, n);
    lemma_sum_squares(y, n);
    let (alpha, beta, gamma) = (inner(x, x), inner(y, y), inner(x, y));
    lemma_not_negative(alpha, beta);
    lemma_root(alpha * beta);
    lemma_tenth_positive(JACOBI_PLACES);
    lemma_not_negative(real::tenth_pow(JACOBI_PLACES), (alpha * beta).root());
    assert(gamma != 0real);
    let two = real::counted(2);
    assert(two == 2real);
    let g2 = two * gamma;
    assert(g2 == gamma + gamma);
    let zeta = (beta - alpha) / g2;
    lemma_over_times(beta - alpha, g2);
    lemma_spread(zeta, gamma, gamma);
    let zg = zeta * gamma;
    assert(zg + zg == beta - alpha);
    let sg = -zeta.sign();
    lemma_one(zeta);
    lemma_square(zeta);
    let root = (1real + zeta * zeta).root();
    lemma_root(1real + zeta * zeta);
    let d = zeta.magnitude() + root;
    let t = tangent(lanes, x, y);
    assert(t == sg / d);
    lemma_over_times(sg, d);
    lemma_tangent(zeta, sg, root, t);
    let c = cosine(t);
    let s = t * c;
    let whole = wide_whole(lanes, n);
    lemma_rotated(x, y, c, s, whole);
    let z = mixed(c, x, s, y);
    lemma_inner_mixed(z, c, y, -s, x);
    lemma_inner_mixed(y, c, x, s, y);
    lemma_inner_mixed(x, c, x, s, y);
    lemma_inner_comm(y, z);
    lemma_inner_comm(x, z);
    lemma_inner_comm(x, y);
    // c (c gamma + s beta) - s (c alpha + s gamma) = c c (gamma (1 - t t) + t (beta - alpha))
    let (cg, sb, ca, sgm) = (c * gamma, s * beta, c * alpha, s * gamma);
    let cc = c * c;
    assert(c * (cg + sb) + (-s) * (ca + sgm) == 0real) by {
        lemma_spread(c, cg, sb);
        lemma_negate(s, ca + sgm);
        lemma_spread(s, ca, sgm);
        // c cg = cc gamma
        lemma_assoc(c, c, gamma);
        // c sb = cc (t beta)
        lemma_comm(t, c);
        lemma_assoc(c, t, beta);
        lemma_assoc(c, c, t * beta);
        // s ca = cc (t alpha)
        lemma_regroup(c, t, c, alpha);
        // s sgm = cc (t (t gamma))
        lemma_assoc(c, t, gamma);
        lemma_regroup(c, t, c, t * gamma);
        let (tb, ta, ttg) = (t * beta, t * alpha, t * (t * gamma));
        lemma_spread(cc, gamma, tb);
        lemma_spread(cc, ta, ttg);
        lemma_spread_sub(cc, gamma + tb, ta + ttg);
        assert(gamma + tb - ta - ttg == 0real) by {
            let e = 1real - t * t + (zeta + zeta) * t;
            lemma_zero(gamma);
            // gamma e = gamma - gamma t t + 2 zg t
            let u = 1real - t * t;
            let w = (zeta + zeta) * t;
            lemma_spread(gamma, u, w);
            lemma_spread_sub(gamma, 1real, t * t);
            lemma_one(gamma);
            lemma_comm(gamma, t * t);
            lemma_assoc(t, t, gamma);
            assert(gamma * w == t * (beta - alpha)) by {
                lemma_assoc(gamma, zeta + zeta, t);
                lemma_spread(gamma, zeta, zeta);
                lemma_comm(gamma, zeta);
                lemma_comm(zg + zg, t);
            }
            lemma_spread_sub(t, beta, alpha);
        }
        lemma_zero(cc);
    }
}

/// A rotation keeps the sum of the squares of its pair.
pub proof fn law_rotate_keeps(x: Seq<real>, y: Seq<real>, c: real, s: real, whole: int)
    requires
        x.len() == y.len(),
        c * c + s * s == 1real,
    ensures
        ({
            let u = rotated_first(x, y, c, s, whole);
            let w = rotated_second(x, y, c, s, whole);
            inner(u, u) + inner(w, w) == inner(x, x) + inner(y, y)
        }),
{
    lemma_rotated(x, y, c, s, whole);
    let n = x.len() as int;
    let (u, w) = (mixed(c, x, s, y), mixed(c, y, -s, x));
    let f = |r: int| u[r] * u[r] + w[r] * w[r];
    let g = |r: int| x[r] * x[r] + y[r] * y[r];
    assert forall|r: int| 0 <= r < n implies #[trigger] f(r) == g(r) by {
        lemma_turn_product(x[r], y[r], x[r], y[r], c, s);
    }
    let (uu, ww) = (|r: int| u[r] * u[r], |r: int| w[r] * w[r]);
    let (xx, yy) = (|r: int| x[r] * x[r], |r: int| y[r] * y[r]);
    lemma_sum_add(n, uu, ww);
    lemma_sum_add(n, xx, yy);
    lemma_sum_ext(n, f, g);
    lemma_sum_ext(n, f, |r: int| uu(r) + ww(r));
    lemma_sum_ext(n, g, |r: int| xx(r) + yy(r));
}

/// A pair of numbers, turned and turned back.
proof fn lemma_undone(c: real, s: real, x: real, y: real)
    requires
        c * c + s * s == 1real,
    ensures
        c * (c * x + s * y) + (-s) * (c * y + (-s) * x) == x,
{
    let (cx, sy, cy, sx) = (c * x, s * y, c * y, s * x);
    let (cc, ss, cs) = (c * c, s * s, c * s);
    lemma_negate(s, x);
    lemma_spread(c, cx, sy);
    lemma_negate(s, cy - sx);
    lemma_spread_sub(s, cy, sx);
    lemma_assoc(c, c, x);
    lemma_assoc(c, s, y);
    lemma_assoc(s, c, y);
    lemma_assoc(s, s, x);
    lemma_comm(s, c);
    assert(cc * x + ss * x == x) by {
        lemma_comm(cc, x);
        lemma_comm(ss, x);
        lemma_spread(x, cc, ss);
        lemma_one(x);
    }
}

/// A rotation is undone by the rotation the other way.
pub proof fn law_rotate_undone(x: Seq<real>, y: Seq<real>, c: real, s: real, whole: int)
    requires
        x.len() == y.len(),
        c * c + s * s == 1real,
    ensures
        ({
            let u = rotated_first(x, y, c, s, whole);
            let w = rotated_second(x, y, c, s, whole);
            &&& rotated_first(u, w, c, -s, whole) == x
            &&& rotated_second(u, w, c, -s, whole) == y
        }),
{
    lemma_rotated(x, y, c, s, whole);
    let (u, w) = (mixed(c, x, s, y), mixed(c, y, -s, x));
    lemma_rotated(u, w, c, -s, whole);
    let (a, b) = (mixed(c, u, -s, w), mixed(c, w, -(-s), u));
    assert forall|r: int| 0 <= r < x.len() implies a[r] == x[r] && b[r] == y[r] by {
        lemma_undone(c, s, x[r], y[r]);
        lemma_negate(s, -s);
        lemma_negate(s, s);
        lemma_comm(s, -s);
        lemma_undone(c, -s, y[r], x[r]);
    }
    assert(a =~= x);
    assert(b =~= y);
}

} // verus!
