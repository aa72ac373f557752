//! Why the first triplets are the ones to keep: in exact arithmetic no matrix of the same rank
//! comes closer than they do.
//!
//! A matrix of rank `k` has its rows in the span of `k` orthonormal vectors. What it can take off
//! the matrix is not more than the matrix is long along these vectors, and that is most for the
//! right singular vectors of the `k` largest singular values.

use crate::algebra::{
    lemma_assoc, lemma_comm, lemma_negate, lemma_no_divisors, lemma_not_negative, lemma_one,
    lemma_regroup, lemma_spread, lemma_spread_sub, lemma_square, lemma_zero,
};
use crate::chol_laws::lemma_tenth_positive;
use crate::dense::{
    law_tall_left, law_tall_product, law_tall_right, law_tall_truncation, reduced_state, square_r,
    tall_left, tall_missing,
};
use crate::exact::{
    combined, delta, inner, lemma_inner_combined, lemma_inner_comm, lemma_inner_expand,
    lemma_isometry, lemma_root, lemma_sum_add, lemma_sum_at_most, lemma_sum_ext, lemma_sum_scale,
    lemma_sum_short, lemma_sum_single, lemma_sum_split, lemma_sum_squares, lemma_sum_swap,
    lemma_sum_zero, sum,
};
use crate::grid::cell;
use crate::house::{qr_q, qr_r, tall};
use crate::qr_laws::{law_q_orthonormal, law_qr_product};
use crate::scalar::{roots_exist, Number, WideNumber};
use crate::svd::{
    all_settled, left_entry, lengths, ranked, right_entry, singular_value, svd_state, triplet,
    Jacobi, JACOBI_PLACES,
};
use crate::svd_laws::{
    law_right_complete, law_right_orthonormal, law_svd_product, law_truncation,
    law_values_descending, lemma_energy, lemma_image, lemma_left_inner, lemma_length,
    lemma_order_cancel, lemma_ranked_sum, lemma_ranks, lemma_settled, missing,
};
use crate::sweep_laws::{overlap2, tangle};
use crate::tensor_laws::lemma_squares_order;
use vstd::prelude::*;

verus! {

/// Orthonormal vectors of `m` entries.
pub open spec fn orthonormal_family(q: Seq<Seq<real>>, m: int) -> bool {
    &&& tall(q, m)
    &&& forall|c: int, d: int|
        0 <= c < q.len() && 0 <= d < q.len() ==> inner(#[trigger] q[c], #[trigger] q[d]) == delta(
            c,
            d,
        )
}

/// The inner products of `v` with the vectors `q`, squared and added up.
pub open spec fn along(v: Seq<real>, q: Seq<Seq<real>>) -> real {
    sum(q.len() as int, |c: int| inner(v, q[c]) * inner(v, q[c]))
}

/// How far a combination `y` of orthonormal vectors, with the coefficients `z`, is from `v`.
proof fn lemma_distance(v: Seq<real>, q: Seq<Seq<real>>, z: spec_fn(int) -> real, y: Seq<real>)
    requires
        orthonormal_family(q, v.len() as int),
        y.len() == v.len(),
        forall|j: int|
            0 <= j < y.len() ==> #[trigger] y[j] == sum(q.len() as int, |c: int| q[c][j] * z(c)),
    ensures
        ({
            let e = combined(v, -1real, y);
            let k = q.len() as int;
            inner(e, e) == inner(v, v) - 2real * sum(k, |c: int| inner(v, q[c]) * z(c)) + sum(
                k,
                |c: int| z(c) * z(c),
            )
        }),
{
    let e = combined(v, -1real, y);
    lemma_inner_expand(v, q, z, y);
    lemma_isometry(q, z, y, z, y);
    lemma_inner_combined(e, v, -1real, y);
    lemma_inner_combined(v, v, -1real, y);
    lemma_inner_combined(y, v, -1real, y);
    lemma_inner_comm(e, v);
    lemma_inner_comm(e, y);
    lemma_inner_comm(y, v);
    lemma_one(inner(e, y));
    lemma_one(inner(v, y));
    lemma_one(inner(y, y));
}

/// No combination of orthonormal vectors takes more off `v` than `v` is long along them.
proof fn lemma_no_closer(v: Seq<real>, q: Seq<Seq<real>>, z: spec_fn(int) -> real, y: Seq<real>)
    requires
        orthonormal_family(q, v.len() as int),
        y.len() == v.len(),
        forall|j: int|
            0 <= j < y.len() ==> #[trigger] y[j] == sum(q.len() as int, |c: int| q[c][j] * z(c)),
    ensures
        inner(v, v) - along(v, q) <= inner(combined(v, -1real, y), combined(v, -1real, y)),
{
    lemma_distance(v, q, z, y);
    let k = q.len() as int;
    let pz = |c: int| inner(v, q[c]) * z(c);
    let zz = |c: int| z(c) * z(c);
    let pp = |c: int| inner(v, q[c]) * inner(v, q[c]);
    let two = |c: int| 2real * pz(c);
    let both = |c: int| pp(c) + zz(c);
    assert forall|c: int| 0 <= c < k implies #[trigger] two(c) <= both(c) by {
        lemma_two_products(inner(v, q[c]), z(c));
    }
    lemma_sum_at_most(k, two, both);
    lemma_sum_scale(k, pz, 2real);
    lemma_sum_ext(k, two, |c: int| 2real * pz(c));
    lemma_sum_add(k, pp, zz);
    lemma_sum_ext(k, both, |c: int| pp(c) + zz(c));
}

/// `2 p z <= p^2 + z^2`, and the same with the other sign.
proof fn lemma_two_products(p: real, z: real)
    ensures
        2real * (p * z) <= p * p + z * z,
        -(2real * (p * z)) <= p * p + z * z,
{
    let (u, w) = (p - z, p + z);
    lemma_square(u);
    lemma_square(w);
    lemma_spread_sub(u, p, z);
    lemma_comm(u, p);
    lemma_comm(u, z);
    lemma_spread_sub(p, p, z);
    lemma_spread_sub(z, p, z);
    lemma_spread(w, p, z);
    lemma_comm(w, p);
    lemma_comm(w, z);
    lemma_spread(p, p, z);
    lemma_spread(z, p, z);
    lemma_comm(p, z);
}

/// A vector is not longer along orthonormal vectors than it is.
proof fn lemma_bessel(v: Seq<real>, q: Seq<Seq<real>>)
    requires
        orthonormal_family(q, v.len() as int),
    ensures
        along(v, q) <= inner(v, v),
{
    let k = q.len() as int;
    let z = |c: int| inner(v, q[c]);
    let y = Seq::new(v.len(), |j: int| sum(k, |c: int| q[c][j] * z(c)));
    lemma_distance(v, q, z, y);
    let e = combined(v, -1real, y);
    lemma_sum_squares(e, e.len() as int);
    lemma_sum_ext(
        k,
        |c: int| inner(v, q[c]) * z(c),
        |c: int| inner(v, q[c]) * inner(v, q[c]),
    );
    lemma_sum_ext(k, |c: int| z(c) * z(c), |c: int| inner(v, q[c]) * inner(v, q[c]));
}

/// A sum of equal terms.
proof fn lemma_sum_same(n: int, x: real)
    requires
        0 <= n,
    ensures
        sum(n, |i: int| x) == (n as real) * x,
    decreases n,
{
    if n > 0 {
        lemma_sum_same(n - 1, x);
        let m = (n - 1) as real;
        assert(n as real == m + 1real);
        lemma_comm(m + 1real, x);
        lemma_spread(x, m, 1real);
        lemma_comm(x, m);
        lemma_one(x);
    } else {
        lemma_zero(x);
    }
}

/// Weights from 0 to 1 that add up to `k` weigh most on the `k` largest of the numbers `d`.
proof fn lemma_weighed(m: int, k: int, d: spec_fn(int) -> real, c: spec_fn(int) -> real)
    requires
        0 <= k <= m,
        forall|i: int| 0 <= i < m ==> #[trigger] d(i) >= 0real,
        forall|i: int, j: int| 0 <= i < j < m ==> #[trigger] d(j) <= #[trigger] d(i),
        forall|i: int| 0 <= i < m ==> 0real <= #[trigger] c(i) <= 1real,
        sum(m, c) == k as real,
    ensures
        sum(m, |i: int| d(i) * c(i)) <= sum(k, d),
{
    let f = |i: int| d(i) * c(i);
    if k == m {
        assert forall|i: int| 0 <= i < m implies #[trigger] f(i) <= d(i) by {
            lemma_not_negative(d(i), 1real - c(i));
            lemma_spread_sub(d(i), 1real, c(i));
            lemma_one(d(i));
        }
        lemma_sum_at_most(m, f, d);
    } else {
        let low = d(k);
        let above = |i: int|
            if i < k {
                d(i) - low
            } else {
                0real
            };
        let share = |i: int| low * c(i);
        let g = |i: int| above(i) + share(i);
        assert forall|i: int| 0 <= i < m implies #[trigger] f(i) <= g(i) by {
            let (x, w) = (d(i), c(i));
            if i < k {
                assert(d(k) <= d(i));
                lemma_not_negative(x - low, 1real - w);
                lemma_spread_sub(x - low, 1real, w);
                lemma_one(x - low);
            } else {
                if i > k {
                    assert(d(i) <= d(k));
                }
                lemma_not_negative(low - x, w);
            }
            lemma_comm(x - low, w);
            lemma_comm(low - x, w);
            lemma_spread_sub(w, x, low);
            lemma_spread_sub(w, low, x);
            lemma_comm(w, x);
            lemma_comm(w, low);
        }
        lemma_sum_at_most(m, f, g);
        lemma_sum_add(m, above, share);
        lemma_sum_ext(m, g, |i: int| above(i) + share(i));
        lemma_sum_scale(m, c, low);
        lemma_sum_ext(m, share, |i: int| low * c(i));
        lemma_sum_short(m, k, above);
        let minus = |i: int| -low;
        lemma_sum_same(k, -low);
        lemma_sum_add(k, d, minus);
        lemma_sum_ext(k, above, |i: int| d(i) + minus(i));
        lemma_sum_ext(k, minus, |i: int| -low);
        lemma_comm(k as real, -low);
        lemma_negate(low, k as real);
    }
}

/// Vectors `a` of `n` entries with the lengths `s`, the longest first, and a complete family of
/// orthonormal vectors `r`: the matrix that is the sum of the products of an `a` and an `r`.
pub open spec fn family(a: Seq<Seq<real>>, n: int, r: Seq<Seq<real>>, s: Seq<real>) -> bool {
    let m = r.len() as int;
    &&& a.len() == m
    &&& s.len() == m
    &&& 0 <= n
    &&& tall(a, n)
    &&& orthonormal_family(r, m)
    &&& forall|x: int, y: int|
        0 <= x < m && 0 <= y < m ==> #[trigger] spanned(r, x, y) == delta(x, y)
    &&& forall|i: int| 0 <= i < m ==> #[trigger] s[i] >= 0real
    &&& forall|i: int, j: int| 0 <= i < j < m ==> #[trigger] s[j] <= #[trigger] s[i]
    &&& forall|i: int| 0 <= i < m ==> inner(#[trigger] a[i], a[i]) == s[i] * s[i]
}

/// Such a family whose vectors `a` are orthogonal up to `eps`, relative to their lengths.
pub open spec fn graded(
    a: Seq<Seq<real>>,
    n: int,
    r: Seq<Seq<real>>,
    s: Seq<real>,
    eps: real,
) -> bool {
    let m = r.len() as int;
    &&& family(a, n, r, s)
    &&& eps >= 0real
    &&& forall|i: int, j: int|
        0 <= i < m && 0 <= j < m && i != j ==> -(eps * (s[i] * s[j])) <= inner(
            #[trigger] a[i],
            #[trigger] a[j],
        ) <= eps * (s[i] * s[j])
}

/// The products of entries `x` and `y`, over all vectors.
pub open spec fn spanned(r: Seq<Seq<real>>, x: int, y: int) -> real {
    sum(r.len() as int, |i: int| r[i][x] * r[i][y])
}

/// Along a complete family a vector has its full length.
proof fn lemma_complete(q: Seq<real>, r: Seq<Seq<real>>)
    requires
        tall(r, r.len() as int),
        q.len() == r.len(),
        forall|x: int, y: int|
            0 <= x < r.len() && 0 <= y < r.len() ==> #[trigger] spanned(r, x, y) == delta(x, y),
    ensures
        along(q, r) == inner(q, q),
{
    let m = r.len() as int;
    let e = Seq::new(m as nat, |x: int| Seq::new(m as nat, |i: int| r[i][x]));
    let u = Seq::new(m as nat, |i: int| inner(q, r[i]));
    let f = |x: int| q[x];
    assert forall|x: int, y: int| 0 <= x < m && 0 <= y < m implies inner(
        #[trigger] e[x],
        #[trigger] e[y],
    ) == delta(x, y) by {
        assert(spanned(r, x, y) == delta(x, y));
        lemma_sum_ext(m, |i: int| e[x][i] * e[y][i], |i: int| r[i][x] * r[i][y]);
    }
    assert forall|i: int| 0 <= i < m implies #[trigger] u[i] == sum(m, |x: int| e[x][i] * f(x)) by {
        let g = |x: int| q[x] * r[i][x];
        let h = |x: int| e[x][i] * f(x);
        assert forall|x: int| 0 <= x < m implies #[trigger] g(x) == h(x) by {
            lemma_comm(q[x], r[i][x]);
        }
        lemma_sum_ext(m, g, h);
    }
    lemma_isometry(e, f, u, f, u);
    lemma_sum_ext(m, |i: int| u[i] * u[i], |i: int| inner(q, r[i]) * inner(q, r[i]));
    lemma_sum_ext(m, |x: int| f(x) * f(x), |x: int| q[x] * q[x]);
}

/// The product of two vectors that are orthogonal up to `eps`, in a combination.
proof fn lemma_cross_term(g: real, wi: real, wj: real, si: real, sj: real, eps: real)
    requires
        -(eps * (si * sj)) <= g <= eps * (si * sj),
        eps >= 0real,
    ensures
        2real * ((g * wi) * wj) <= eps * ((wi * si) * (wi * si) + (wj * sj) * (wj * sj)),
{
    let (pi, pj) = (wi * si, wj * sj);
    let ww = wi * wj;
    let ss = si * sj;
    let es = eps * ss;
    let pp = pi * pj;
    lemma_assoc(g, wi, wj);
    lemma_regroup(wi, si, wj, sj);
    assert(pp == ww * ss);
    lemma_two_products(pi, pj);
    let both = pi * pi + pj * pj;
    lemma_assoc(eps, ss, ww);
    lemma_comm(ss, ww);
    assert(es * ww == eps * pp);
    if ww >= 0real {
        // g ww <= eps ss ww
        lemma_not_negative(es - g, ww);
        lemma_comm(es - g, ww);
        lemma_spread_sub(ww, es, g);
        lemma_comm(ww, es);
        lemma_comm(ww, g);
        lemma_not_negative(eps, both - 2real * pp);
        lemma_spread_sub(eps, both, 2real * pp);
        lemma_spread(eps, pp, pp);
    } else {
        // g ww <= eps ss (-ww)
        lemma_not_negative(es + g, -ww);
        lemma_comm(es + g, -ww);
        lemma_negate(ww, es + g);
        lemma_spread(ww, es, g);
        lemma_comm(ww, es);
        lemma_comm(ww, g);
        lemma_not_negative(eps, both + 2real * pp);
        lemma_spread(eps, both, 2real * pp);
        lemma_spread(eps, pp, pp);
    }
}

/// The squares of a combination of the vectors `a` with the coefficients `w`.
proof fn lemma_combination(
    a: Seq<Seq<real>>,
    n: int,
    r: Seq<Seq<real>>,
    s: Seq<real>,
    eps: real,
    w: Seq<real>,
)
    requires
        graded(a, n, r, s, eps),
        w.len() == a.len(),
    ensures
        ({
            let m = a.len() as int;
            let u = Seq::new(n as nat, |x: int| sum(m, |i: int| a[i][x] * w[i]));
            let p = sum(m, |i: int| (w[i] * s[i]) * (w[i] * s[i]));
            inner(u, u) <= p + (eps * (m as real)) * p
        }),
{
    let m = a.len() as int;
    let u = Seq::new(n as nat, |x: int| sum(m, |i: int| a[i][x] * w[i]));
    let f = |i: int| w[i];
    let sq = |i: int| (w[i] * s[i]) * (w[i] * s[i]);
    let p = sum(m, sq);
    assert forall|x: int| 0 <= x < n implies #[trigger] u[x] == sum(m, |c: int| a[c][x] * f(c)) by {
        lemma_sum_ext(m, |i: int| a[i][x] * w[i], |c: int| a[c][x] * f(c));
    }
    lemma_inner_expand(u, a, f, u);
    let outer = |j: int| inner(u, a[j]) * f(j);
    let mr = m as real;
    // Twice each term of the sum, and what it is at most.
    let twice = |j: int| 2real * outer(j);
    let top = |j: int| 2real * sq(j) + eps * (p + mr * sq(j));
    assert forall|j: int| 0 <= j < m implies #[trigger] twice(j) <= top(j) by {
        lemma_inner_expand(a[j], a, f, u);
        lemma_inner_comm(u, a[j]);
        let wj = w[j];
        let g = |i: int| inner(a[j], a[i]) * f(i);
        lemma_sum_scale(m, g, wj);
        lemma_comm(sum(m, g), wj);
        let gw = |i: int| 2real * (wj * g(i));
        let wg = |i: int| wj * g(i);
        lemma_sum_scale(m, wg, 2real);
        lemma_sum_ext(m, wg, |i: int| wj * g(i));
        lemma_sum_ext(m, gw, |i: int| 2real * wg(i));
        assert(twice(j) == sum(m, gw));
        let own = |i: int|
            if i == j {
                2real * sq(j)
            } else {
                0real
            };
        let pair = |i: int| sq(i) + sq(j);
        let rest = |i: int| eps * pair(i);
        let most = |i: int| own(i) + rest(i);
        assert forall|i: int| 0 <= i < m implies #[trigger] gw(i) <= most(i) by {
            lemma_comm(wj, g(i));
            if i == j {
                lemma_square(wj * s[j]);
                lemma_not_negative(eps, sq(j) + sq(j));
                lemma_regroup(wj, s[j], wj, s[j]);
                lemma_assoc(s[j] * s[j], wj, wj);
                lemma_comm(s[j] * s[j], wj * wj);
            } else {
                lemma_cross_term(inner(a[j], a[i]), w[i], wj, s[i], s[j], eps);
                lemma_comm(s[i], s[j]);
            }
        }
        lemma_sum_at_most(m, gw, most);
        lemma_sum_add(m, own, rest);
        lemma_sum_ext(m, most, |i: int| own(i) + rest(i));
        lemma_sum_single(m, own, j);
        lemma_sum_scale(m, pair, eps);
        lemma_sum_ext(m, rest, |i: int| eps * pair(i));
        let same = |i: int| sq(j);
        lemma_sum_add(m, sq, same);
        lemma_sum_ext(m, pair, |i: int| sq(i) + same(i));
        lemma_sum_same(m, sq(j));
        lemma_sum_ext(m, same, |i: int| sq(j));
    }
    lemma_sum_at_most(m, twice, top);
    lemma_sum_scale(m, outer, 2real);
    lemma_sum_ext(m, twice, |j: int| 2real * outer(j));
    lemma_sum_ext(m, outer, |c: int| inner(u, a[c]) * f(c));
    // The sum of what they are at most.
    let sq2 = |j: int| 2real * sq(j);
    let flat = |j: int| p;
    let msq = |j: int| mr * sq(j);
    let inside = |j: int| flat(j) + msq(j);
    let tail = |j: int| eps * inside(j);
    lemma_sum_add(m, sq2, tail);
    lemma_sum_ext(m, top, |j: int| sq2(j) + tail(j));
    lemma_sum_scale(m, sq, 2real);
    lemma_sum_ext(m, sq2, |j: int| 2real * sq(j));
    lemma_sum_scale(m, inside, eps);
    lemma_sum_ext(m, tail, |j: int| eps * inside(j));
    lemma_sum_add(m, flat, msq);
    lemma_sum_ext(m, inside, |j: int| flat(j) + msq(j));
    lemma_sum_same(m, p);
    lemma_sum_ext(m, flat, |j: int| p);
    lemma_sum_scale(m, sq, mr);
    lemma_sum_ext(m, msq, |j: int| mr * sq(j));
    let mp = mr * p;
    assert(sum(m, top) == 2real * p + eps * (mp + mp));
    lemma_spread(eps, mp, mp);
    lemma_assoc(eps, mr, p);
}

/// Row `x` of the matrix that the vectors `a` and `r` make.
pub open spec fn graded_row(a: Seq<Seq<real>>, r: Seq<Seq<real>>, x: int) -> Seq<real> {
    let m = r.len();
    Seq::new(m, |j: int| sum(m as int, |i: int| r[i][j] * a[i][x]))
}

/// The weight of vector `i` of a complete family among the orthonormal vectors `q`.
proof fn lemma_weights(q: Seq<Seq<real>>, r: Seq<Seq<real>>)
    requires
        orthonormal_family(r, r.len() as int),
        orthonormal_family(q, r.len() as int),
        forall|x: int, y: int|
            0 <= x < r.len() && 0 <= y < r.len() ==> #[trigger] spanned(r, x, y) == delta(x, y),
    ensures
        forall|i: int| 0 <= i < r.len() ==> 0real <= #[trigger] along(r[i], q) <= 1real,
        sum(r.len() as int, |i: int| along(r[i], q)) == q.len() as real,
{
    let m = r.len() as int;
    let k = q.len() as int;
    assert forall|i: int| 0 <= i < m implies 0real <= #[trigger] along(r[i], q) <= 1real by {
        lemma_bessel(r[i], q);
        assert(inner(r[i], r[i]) == delta(i, i));
        let f = |c: int| inner(r[i], q[c]) * inner(r[i], q[c]);
        let none = |c: int| 0real;
        assert forall|c: int| 0 <= c < k implies #[trigger] none(c) <= f(c) by {
            lemma_square(inner(r[i], q[c]));
        }
        lemma_sum_at_most(k, none, f);
        lemma_sum_zero(k, none);
    }
    let square = |i: int, c: int| inner(r[i], q[c]) * inner(r[i], q[c]);
    let by_vector = |i: int| along(r[i], q);
    lemma_sum_swap(m, k, square);
    assert forall|i: int| 0 <= i < m implies #[trigger] by_vector(i) == sum(
        k,
        |c: int| square(i, c),
    ) by {
        lemma_sum_ext(
            k,
            |c: int| inner(r[i], q[c]) * inner(r[i], q[c]),
            |c: int| square(i, c),
        );
    }
    lemma_sum_ext(m, by_vector, |i: int| sum(k, |c: int| square(i, c)));
    let by_axis = |c: int| sum(m, |i: int| square(i, c));
    let one = |c: int| 1real;
    assert forall|c: int| 0 <= c < k implies #[trigger] by_axis(c) == one(c) by {
        lemma_complete(q[c], r);
        assert(inner(q[c], q[c]) == delta(c, c));
        let f = |i: int| square(i, c);
        let g = |i: int| inner(q[c], r[i]) * inner(q[c], r[i]);
        assert forall|i: int| 0 <= i < m implies #[trigger] f(i) == g(i) by {
            lemma_inner_comm(q[c], r[i]);
        }
        lemma_sum_ext(m, f, g);
    }
    lemma_sum_ext(k, by_axis, one);
    lemma_sum_same(k, 1real);
    lemma_sum_ext(k, one, |c: int| 1real);
    lemma_one(k as real);
}

/// The part of length `i` along the vector `c` of `q`.
spec fn part(q: Seq<Seq<real>>, r: Seq<Seq<real>>, s: Seq<real>, c: int, i: int) -> real {
    (inner(q[c], r[i]) * s[i]) * (inner(q[c], r[i]) * s[i])
}

/// The coefficients of the vector `c` of `q` in the complete family `r`.
spec fn weights(q: Seq<Seq<real>>, r: Seq<Seq<real>>, c: int) -> Seq<real> {
    Seq::new(r.len(), |i: int| inner(q[c], r[i]))
}

/// The combination of the vectors `a` with the coefficients `w`.
pub open spec fn combination(a: Seq<Seq<real>>, n: int, w: Seq<real>) -> Seq<real> {
    Seq::new(n as nat, |x: int| sum(a.len() as int, |i: int| a[i][x] * w[i]))
}

/// Each length has a weight from 0 to 1, and together they weigh as much as there are vectors, so
/// that the largest lengths weigh most.
proof fn lemma_parts_at_most(
    a: Seq<Seq<real>>,
    n: int,
    r: Seq<Seq<real>>,
    s: Seq<real>,
    q: Seq<Seq<real>>,
)
    requires
        family(a, n, r, s),
        q.len() <= r.len(),
        orthonormal_family(q, r.len() as int),
    ensures
        sum(q.len() as int, |c: int| sum(r.len() as int, |i: int| part(q, r, s, c, i))) <= sum(
            q.len() as int,
            |i: int| s[i] * s[i],
        ),
{
    let m = r.len() as int;
    let k = q.len() as int;
    lemma_weights(q, r);
    let d = |i: int| s[i] * s[i];
    let weight = |i: int| along(r[i], q);
    let turned_part = |c: int, i: int| part(q, r, s, c, i);
    lemma_sum_swap(k, m, turned_part);
    let p = |c: int| sum(m, |i: int| part(q, r, s, c, i));
    let by_axis_part = |c: int| sum(m, |i: int| turned_part(c, i));
    assert forall|c: int| 0 <= c < k implies #[trigger] p(c) == by_axis_part(c) by {
        lemma_sum_ext(m, |i: int| part(q, r, s, c, i), |i: int| turned_part(c, i));
    }
    lemma_sum_ext(k, p, by_axis_part);
    let by_length = |i: int| sum(k, |c: int| turned_part(c, i));
    let dw = |i: int| d(i) * weight(i);
    assert forall|i: int| 0 <= i < m implies #[trigger] by_length(i) == dw(i) by {
        let f = |c: int| inner(r[i], q[c]) * inner(r[i], q[c]);
        lemma_sum_scale(k, f, d(i));
        let g = |c: int| turned_part(c, i);
        let h = |c: int| d(i) * f(c);
        assert forall|c: int| 0 <= c < k implies #[trigger] g(c) == h(c) by {
            lemma_inner_comm(q[c], r[i]);
            let t = inner(q[c], r[i]);
            lemma_regroup(t, s[i], t, s[i]);
            lemma_comm(t * t, s[i] * s[i]);
        }
        lemma_sum_ext(k, g, h);
    }
    lemma_sum_ext(m, by_length, dw);
    assert forall|i: int| 0 <= i < m implies #[trigger] d(i) >= 0real by {
        lemma_square(s[i]);
    }
    assert forall|i: int, j: int| 0 <= i < j < m implies #[trigger] d(j) <= #[trigger] d(i) by {
        assert(s[j] <= s[i]);
        lemma_squares_order(s[j], s[i]);
    }
    assert forall|i: int| 0 <= i < m implies 0real <= #[trigger] weight(i) <= 1real by {
        assert(0real <= along(r[i], q) <= 1real);
    }
    lemma_sum_ext(m, weight, |i: int| along(r[i], q));
    lemma_weighed(m, k, d, weight);
    lemma_sum_ext(m, dw, |i: int| d(i) * weight(i));
    lemma_sum_ext(k, d, |i: int| s[i] * s[i]);
}

/// How long the rows are along the orthonormal vectors, vector by vector.
proof fn lemma_by_axis(
    a: Seq<Seq<real>>,
    n: int,
    r: Seq<Seq<real>>,
    s: Seq<real>,
    q: Seq<Seq<real>>,
)
    requires
        family(a, n, r, s),
        orthonormal_family(q, r.len() as int),
    ensures
        sum(n, |x: int| along(graded_row(a, r, x), q)) == sum(
            q.len() as int,
            |c: int|
                inner(
                    combination(a, n, weights(q, r, c)),
                    combination(a, n, weights(q, r, c)),
                ),
        ),
{
    let m = r.len() as int;
    let k = q.len() as int;
    let square = |x: int, c: int|
        inner(graded_row(a, r, x), q[c]) * inner(graded_row(a, r, x), q[c]);
    let by_row = |x: int| along(graded_row(a, r, x), q);
    assert forall|x: int| 0 <= x < n implies #[trigger] by_row(x) == sum(
        k,
        |c: int| square(x, c),
    ) by {
        lemma_sum_ext(
            k,
            |c: int| inner(graded_row(a, r, x), q[c]) * inner(graded_row(a, r, x), q[c]),
            |c: int| square(x, c),
        );
    }
    lemma_sum_ext(n, by_row, |x: int| sum(k, |c: int| square(x, c)));
    lemma_sum_swap(n, k, square);
    let by_axis = |c: int| sum(n, |x: int| square(x, c));
    let own = |c: int|
        inner(combination(a, n, weights(q, r, c)), combination(a, n, weights(q, r, c)));
    assert forall|c: int| 0 <= c < k implies #[trigger] by_axis(c) == own(c) by {
        let w = weights(q, r, c);
        let u = combination(a, n, w);
        let f = |x: int| square(x, c);
        let g = |x: int| u[x] * u[x];
        assert forall|x: int| 0 <= x < n implies #[trigger] f(x) == g(x) by {
            let coef = |i: int| a[i][x];
            let row = graded_row(a, r, x);
            assert forall|j: int| 0 <= j < m implies #[trigger] row[j] == sum(
                m,
                |i: int| r[i][j] * coef(i),
            ) by {
                lemma_sum_ext(m, |i: int| r[i][j] * a[i][x], |i: int| r[i][j] * coef(i));
            }
            lemma_inner_expand(q[c], r, coef, row);
            lemma_inner_comm(q[c], row);
            let h = |i: int| inner(q[c], r[i]) * coef(i);
            let e = |i: int| a[i][x] * w[i];
            assert forall|i: int| 0 <= i < m implies #[trigger] h(i) == e(i) by {
                lemma_comm(w[i], a[i][x]);
            }
            lemma_sum_ext(m, h, e);
        }
        lemma_sum_ext(n, f, g);
    }
    lemma_sum_ext(k, by_axis, own);
}

/// The matrix is not longer along `k` orthonormal vectors than its `k` largest lengths, up to the
/// threshold.
proof fn lemma_gain(
    a: Seq<Seq<real>>,
    n: int,
    r: Seq<Seq<real>>,
    s: Seq<real>,
    eps: real,
    q: Seq<Seq<real>>,
)
    requires
        graded(a, n, r, s, eps),
        q.len() <= r.len(),
        orthonormal_family(q, r.len() as int),
    ensures
        ({
            let top = sum(q.len() as int, |i: int| s[i] * s[i]);
            sum(n, |x: int| along(graded_row(a, r, x), q)) <= top + (eps * (r.len() as real)) * top
        }),
{
    let m = r.len() as int;
    let k = q.len() as int;
    let em = eps * (m as real);
    lemma_by_axis(a, n, r, s, q);
    lemma_parts_at_most(a, n, r, s, q);
    let own = |c: int|
        inner(combination(a, n, weights(q, r, c)), combination(a, n, weights(q, r, c)));
    let p = |c: int| sum(m, |i: int| part(q, r, s, c, i));
    let emp = |c: int| em * p(c);
    let most = |c: int| p(c) + emp(c);
    assert forall|c: int| 0 <= c < k implies #[trigger] own(c) <= most(c) by {
        let w = weights(q, r, c);
        lemma_combination(a, n, r, s, eps, w);
        assert(combination(a, n, w) =~= Seq::new(
            n as nat,
            |x: int| sum(m, |i: int| a[i][x] * w[i]),
        ));
        lemma_sum_ext(m, |i: int| (w[i] * s[i]) * (w[i] * s[i]), |i: int| part(q, r, s, c, i));
    }
    lemma_sum_at_most(k, own, most);
    lemma_sum_add(k, p, emp);
    lemma_sum_ext(k, most, |c: int| p(c) + emp(c));
    lemma_sum_scale(k, p, em);
    lemma_sum_ext(k, emp, |c: int| em * p(c));
    let total = sum(k, p);
    let top = sum(k, |i: int| s[i] * s[i]);
    lemma_not_negative(eps, m as real);
    lemma_not_negative(em, top - total);
    lemma_spread_sub(em, top, total);
}

/// The squares of a combination of the vectors `a` with coefficients whose squares add up to 1, by
/// how far the vectors are from orthogonal.
proof fn lemma_combination_any(
    a: Seq<Seq<real>>,
    n: int,
    r: Seq<Seq<real>>,
    s: Seq<real>,
    w: Seq<real>,
)
    requires
        roots_exist(),
        family(a, n, r, s),
        w.len() == a.len(),
        inner(w, w) == 1real,
    ensures
        ({
            let m = a.len() as int;
            let u = combination(a, n, w);
            tangle(a) >= 0real && inner(u, u) <= sum(m, |i: int| (w[i] * s[i]) * (w[i] * s[i]))
                + tangle(a).root()
        }),
{
    let m = a.len() as int;
    let u = combination(a, n, w);
    let f = |i: int| w[i];
    let sq = |i: int| (w[i] * s[i]) * (w[i] * s[i]);
    assert forall|x: int| 0 <= x < n implies #[trigger] u[x] == sum(m, |c: int| a[c][x] * f(c)) by {
        lemma_sum_ext(m, |i: int| a[i][x] * w[i], |c: int| a[c][x] * f(c));
    }
    lemma_inner_expand(u, a, f, u);
    let outer = |j: int| inner(u, a[j]) * f(j);
    // How far the vectors are from orthogonal, row by row.
    let off = |j: int, i: int|
        if j == i {
            0real
        } else {
            overlap2(a[j], a[i])
        };
    let row = |j: int| sum(m, |i: int| off(j, i));
    let t2 = sum(m, row);
    let none = |j: int| 0real;
    assert forall|j: int| 0 <= j < m implies #[trigger] none(j) <= row(j) by {
        let g = |i: int| off(j, i);
        assert forall|i: int| 0 <= i < m implies #[trigger] none(i) <= g(i) by {
            lemma_square(inner(a[j], a[i]));
        }
        lemma_sum_at_most(m, none, g);
        lemma_sum_zero(m, none);
    }
    lemma_sum_at_most(m, none, row);
    lemma_sum_zero(m, none);
    let lines = |x: int|
        sum(
            a.len() as int,
            |y: int|
                if x == y {
                    0real
                } else {
                    overlap2(a[x], a[y])
                },
        );
    assert forall|j: int| 0 <= j < m implies #[trigger] lines(j) == row(j) by {
        lemma_sum_ext(
            m,
            |y: int|
                if j == y {
                    0real
                } else {
                    overlap2(a[j], a[y])
                },
            |i: int| off(j, i),
        );
    }
    lemma_sum_ext(m, lines, row);
    assert(t2 == tangle(a));
    lemma_root(t2);
    let t = t2.root();
    // Twice t times each term of the sum, and what it is at most.
    let ww = |j: int, i: int| (w[j] * w[j]) * (w[i] * w[i]);
    let twice = |j: int| (2real * t) * outer(j);
    let ts = |j: int| (2real * t) * sq(j);
    let wrow = |j: int| t2 * (w[j] * w[j]);
    let top = |j: int| ts(j) + (wrow(j) + row(j));
    assert forall|j: int| 0 <= j < m implies #[trigger] twice(j) <= top(j) by {
        lemma_inner_expand(a[j], a, f, u);
        lemma_inner_comm(u, a[j]);
        let wj = w[j];
        let g = |i: int| inner(a[j], a[i]) * f(i);
        lemma_sum_scale(m, g, wj);
        lemma_comm(sum(m, g), wj);
        let wg = |i: int| wj * g(i);
        let tw = |i: int| (2real * t) * wg(i);
        lemma_sum_scale(m, wg, 2real * t);
        lemma_sum_ext(m, wg, |i: int| wj * g(i));
        lemma_sum_ext(m, tw, |i: int| (2real * t) * wg(i));
        assert(twice(j) == sum(m, tw));
        let own = |i: int|
            if i == j {
                (2real * t) * sq(j)
            } else {
                0real
            };
        let t2w = |i: int| t2 * ww(j, i);
        let offj = |i: int| off(j, i);
        let rest = |i: int| t2w(i) + offj(i);
        let most = |i: int| own(i) + rest(i);
        assert forall|i: int| 0 <= i < m implies #[trigger] tw(i) <= most(i) by {
            lemma_comm(wj, g(i));
            lemma_square(w[j]);
            lemma_square(w[i]);
            lemma_not_negative(w[j] * w[j], w[i] * w[i]);
            lemma_not_negative(t2, ww(j, i));
            if i == j {
                lemma_regroup(wj, s[j], wj, s[j]);
                lemma_assoc(s[j] * s[j], wj, wj);
                lemma_comm(s[j] * s[j], wj * wj);
                assert(wg(i) == sq(j));
            } else {
                // 2 (t w_i w_j) g <= (t w_i w_j)^2 + g^2
                let gij = inner(a[j], a[i]);
                let wij = w[i] * wj;
                lemma_assoc(gij, w[i], wj);
                let p = t * wij;
                lemma_two_products(p, gij);
                lemma_comm(gij, wij);
                lemma_assoc(t, wij, gij);
                lemma_regroup(t, wij, t, wij);
                lemma_regroup(w[i], wj, w[i], wj);
                lemma_comm(w[i] * w[i], wj * wj);
                lemma_assoc(2real, t, wg(i));
            }
        }
        lemma_sum_at_most(m, tw, most);
        lemma_sum_add(m, own, rest);
        lemma_sum_ext(m, most, |i: int| own(i) + rest(i));
        lemma_sum_single(m, own, j);
        lemma_sum_add(m, t2w, offj);
        lemma_sum_ext(m, rest, |i: int| t2w(i) + offj(i));
        lemma_sum_ext(m, offj, |i: int| off(j, i));
        let wi = |i: int| w[i] * w[i];
        let wwj = |i: int| ww(j, i);
        lemma_sum_scale(m, wwj, t2);
        lemma_sum_ext(m, t2w, |i: int| t2 * wwj(i));
        lemma_sum_scale(m, wi, w[j] * w[j]);
        lemma_sum_ext(m, wwj, |i: int| (w[j] * w[j]) * wi(i));
        lemma_sum_ext(m, wi, |i: int| w[i] * w[i]);
        lemma_one(w[j] * w[j]);
        assert(sum(m, wwj) == w[j] * w[j]);
    }
    lemma_sum_at_most(m, twice, top);
    lemma_sum_scale(m, outer, 2real * t);
    lemma_sum_ext(m, twice, |j: int| (2real * t) * outer(j));
    lemma_sum_ext(m, outer, |c: int| inner(u, a[c]) * f(c));
    let uu = inner(u, u);
    assert(sum(m, twice) == (2real * t) * uu);
    let tail = |j: int| wrow(j) + row(j);
    lemma_sum_add(m, ts, tail);
    lemma_sum_ext(m, top, |j: int| ts(j) + tail(j));
    lemma_sum_add(m, wrow, row);
    lemma_sum_ext(m, tail, |j: int| wrow(j) + row(j));
    lemma_sum_scale(m, sq, 2real * t);
    lemma_sum_ext(m, ts, |j: int| (2real * t) * sq(j));
    let wi = |i: int| w[i] * w[i];
    lemma_sum_scale(m, wi, t2);
    lemma_sum_ext(m, wrow, |j: int| t2 * wi(j));
    lemma_sum_ext(m, wi, |i: int| w[i] * w[i]);
    lemma_one(t2);
    let p = sum(m, sq);
    assert((2real * t) * uu <= (2real * t) * p + t2 + t2);
    if t > 0real {
        lemma_assoc(2real, t, t);
        lemma_spread(2real * t, p, t);
        lemma_order_cancel(uu, p + t, 2real * t);
    } else {
        // All vectors are orthogonal.
        lemma_zero(0real);
        assert(t2 == 0real);
        assert forall|j: int| 0 <= j < m implies #[trigger] outer(j) == sq(j) by {
            assert forall|i: int| 0 <= i < m implies #[trigger] row(i) >= 0real by {
                assert(none(i) <= row(i));
            }
            lemma_all_zero(m, row);
            assert(row(j) == 0real);
            let g = |i: int| off(j, i);
            assert forall|i: int| 0 <= i < m implies #[trigger] g(i) >= 0real by {
                lemma_square(inner(a[j], a[i]));
            }
            lemma_all_zero(m, g);
            lemma_inner_expand(a[j], a, f, u);
            lemma_inner_comm(u, a[j]);
            let h = |i: int| inner(a[j], a[i]) * f(i);
            assert forall|i: int| 0 <= i < m && i != j implies #[trigger] h(i) == 0real by {
                assert(g(i) == 0real);
                lemma_no_divisors(inner(a[j], a[i]), inner(a[j], a[i]));
                lemma_zero(f(i));
            }
            lemma_sum_single(m, h, j);
            lemma_assoc(s[j] * s[j], w[j], w[j]);
            lemma_regroup(w[j], s[j], w[j], s[j]);
            lemma_comm(s[j] * s[j], w[j] * w[j]);
        }
        lemma_sum_ext(m, outer, sq);
    }
    lemma_sum_ext(m, sq, |i: int| (w[i] * s[i]) * (w[i] * s[i]));
}

/// Terms that are not negative and add up to 0 are 0.
proof fn lemma_all_zero(n: int, f: spec_fn(int) -> real)
    requires
        forall|i: int| 0 <= i < n ==> #[trigger] f(i) >= 0real,
    ensures
        sum(n, f) >= 0real,
        sum(n, f) == 0real ==> forall|i: int| 0 <= i < n ==> #[trigger] f(i) == 0real,
    decreases n,
{
    if n > 0 {
        lemma_all_zero(n - 1, f);
    }
}

/// The matrix is not longer along `k` orthonormal vectors than its `k` largest lengths, but for how
/// far its vectors are from orthogonal.
proof fn lemma_gain_any(
    a: Seq<Seq<real>>,
    n: int,
    r: Seq<Seq<real>>,
    s: Seq<real>,
    q: Seq<Seq<real>>,
)
    requires
        roots_exist(),
        family(a, n, r, s),
        q.len() <= r.len(),
        orthonormal_family(q, r.len() as int),
    ensures
        sum(n, |x: int| along(graded_row(a, r, x), q)) <= sum(
            q.len() as int,
            |i: int| s[i] * s[i],
        ) + (q.len() as real) * tangle(a).root(),
{
    let m = r.len() as int;
    let k = q.len() as int;
    lemma_by_axis(a, n, r, s, q);
    lemma_parts_at_most(a, n, r, s, q);
    let own = |c: int|
        inner(combination(a, n, weights(q, r, c)), combination(a, n, weights(q, r, c)));
    let p = |c: int| sum(m, |i: int| part(q, r, s, c, i));
    let t = tangle(a).root();
    let flat = |c: int| t;
    let most = |c: int| p(c) + flat(c);
    assert forall|c: int| 0 <= c < k implies #[trigger] own(c) <= most(c) by {
        let w = weights(q, r, c);
        lemma_complete(q[c], r);
        assert(inner(q[c], q[c]) == delta(c, c));
        lemma_sum_ext(
            m,
            |i: int| inner(q[c], r[i]) * inner(q[c], r[i]),
            |i: int| w[i] * w[i],
        );
        lemma_combination_any(a, n, r, s, w);
        lemma_sum_ext(m, |i: int| (w[i] * s[i]) * (w[i] * s[i]), |i: int| part(q, r, s, c, i));
    }
    lemma_sum_at_most(k, own, most);
    lemma_sum_add(k, p, flat);
    lemma_sum_ext(k, most, |c: int| p(c) + flat(c));
    lemma_sum_same(k, t);
    lemma_sum_ext(k, flat, |c: int| t);
}

/// Entry `(x, j)` of the sum of the products of a vector of `xs` and one of `ys`.
pub open spec fn outer_sum(xs: Seq<Seq<real>>, ys: Seq<Seq<real>>, x: int, j: int) -> real {
    sum(xs.len() as int, |t: int| xs[t][x] * ys[t][j])
}

/// The rows of a sum of products are combinations of orthonormal vectors, as many as there are
/// products.
proof fn lemma_outer_row(xs: Seq<Seq<real>>, ys: Seq<Seq<real>>, m: int, x: int, j: int)
    requires
        roots_exist(),
        xs.len() == ys.len(),
        ys.len() <= m,
        tall(ys, m),
        0 <= j < m,
    ensures
        outer_sum(xs, ys, x, j) == sum(
            ys.len() as int,
            |c: int|
                qr_q(false, ys, m)[c][j] * sum(
                    ys.len() as int,
                    |t: int| qr_r(false, ys, m, c, t) * xs[t][x],
                ),
        ),
{
    let k = ys.len() as int;
    let q = qr_q(false, ys, m);
    let term = |t: int, c: int| q[c][j] * (qr_r(false, ys, m, c, t) * xs[t][x]);
    let f = |t: int| xs[t][x] * ys[t][j];
    let by_product = |t: int| sum(k, |c: int| term(t, c));
    assert forall|t: int| 0 <= t < k implies #[trigger] f(t) == by_product(t) by {
        law_qr_product(false, ys, m, j, t);
        let g = |c: int| qr_q(false, ys, m)[c][j] * qr_r(false, ys, m, c, t);
        lemma_sum_scale(k, g, xs[t][x]);
        let h = |c: int| xs[t][x] * g(c);
        let e = |c: int| term(t, c);
        assert forall|c: int| 0 <= c < k implies #[trigger] h(c) == e(c) by {
            let (y, z) = (q[c][j], qr_r(false, ys, m, c, t));
            lemma_comm(xs[t][x], y * z);
            lemma_assoc(y, z, xs[t][x]);
        }
        lemma_sum_ext(k, h, e);
    }
    lemma_sum_ext(k, f, by_product);
    lemma_sum_swap(k, k, term);
    let by_vector = |c: int| sum(k, |t: int| term(t, c));
    let want = |c: int|
        qr_q(false, ys, m)[c][j] * sum(
            ys.len() as int,
            |t: int| qr_r(false, ys, m, c, t) * xs[t][x],
        );
    assert forall|c: int| 0 <= c < k implies #[trigger] by_vector(c) == want(c) by {
        let g = |t: int| qr_r(false, ys, m, c, t) * xs[t][x];
        lemma_sum_scale(k, g, q[c][j]);
        lemma_sum_ext(k, |t: int| q[c][j] * g(t), |t: int| term(t, c));
    }
    lemma_sum_ext(k, by_vector, want);
}

/// The squares of what the products of `xs` and `ys` miss of the matrix.
pub open spec fn gap(
    a: Seq<Seq<real>>,
    n: int,
    r: Seq<Seq<real>>,
    xs: Seq<Seq<real>>,
    ys: Seq<Seq<real>>,
) -> real {
    sum(
        n,
        |x: int|
            sum(
                r.len() as int,
                |j: int|
                    (graded_row(a, r, x)[j] - outer_sum(xs, ys, x, j)) * (graded_row(a, r, x)[j]
                        - outer_sum(xs, ys, x, j)),
            ),
    )
}

/// The orthonormal vectors that the rows of the products of `xs` and `ys` are combinations of.
proof fn lemma_spanning(ys: Seq<Seq<real>>, m: int)
    requires
        roots_exist(),
        ys.len() <= m,
        tall(ys, m),
    ensures
        qr_q(false, ys, m).len() == ys.len(),
        orthonormal_family(qr_q(false, ys, m), m),
{
    let q = qr_q(false, ys, m);
    assert forall|c: int| 0 <= c < q.len() implies (#[trigger] q[c]).len() == m by {
        law_q_orthonormal(false, ys, m, c, c);
    }
    assert forall|c: int, d: int| 0 <= c < q.len() && 0 <= d < q.len() implies inner(
        #[trigger] q[c],
        #[trigger] q[d],
    ) == delta(c, d) by {
        law_q_orthonormal(false, ys, m, c, d);
    }
}

/// What `k` products miss of the matrix is not less than its lengths behind the first `k`, but for
/// what the rows are longer along the vectors of the products than the first `k` lengths.
proof fn lemma_best_but(
    a: Seq<Seq<real>>,
    n: int,
    r: Seq<Seq<real>>,
    s: Seq<real>,
    xs: Seq<Seq<real>>,
    ys: Seq<Seq<real>>,
    extra: real,
)
    requires
        roots_exist(),
        family(a, n, r, s),
        xs.len() == ys.len(),
        ys.len() <= r.len(),
        tall(ys, r.len() as int),
        sum(n, |x: int| along(graded_row(a, r, x), qr_q(false, ys, r.len() as int))) <= sum(
            ys.len() as int,
            |i: int| s[i] * s[i],
        ) + extra,
    ensures
        ({
            let m = r.len() as int;
            let k = ys.len() as int;
            sum(m - k, |i: int| s[k + i] * s[k + i]) <= gap(a, n, r, xs, ys) + extra
        }),
{
    let m = r.len() as int;
    let k = ys.len() as int;
    let q = qr_q(false, ys, m);
    lemma_spanning(ys, m);
    lemma_sum_ext(
        n,
        |x: int| along(graded_row(a, r, x), qr_q(false, ys, r.len() as int)),
        |x: int| along(graded_row(a, r, x), q),
    );
    // Row by row the products take off no more than the row is long along the vectors.
    let whole = |x: int| inner(graded_row(a, r, x), graded_row(a, r, x));
    let off = |x: int| along(graded_row(a, r, x), q);
    let missed = |x: int|
        sum(
            r.len() as int,
            |j: int|
                (graded_row(a, r, x)[j] - outer_sum(xs, ys, x, j)) * (graded_row(a, r, x)[j]
                    - outer_sum(xs, ys, x, j)),
        );
    let both = |x: int| missed(x) + off(x);
    assert forall|x: int| 0 <= x < n implies #[trigger] whole(x) <= both(x) by {
        let v = graded_row(a, r, x);
        let z = |c: int| sum(k, |t: int| qr_r(false, ys, m, c, t) * xs[t][x]);
        let y = Seq::new(m as nat, |j: int| outer_sum(xs, ys, x, j));
        assert forall|j: int| 0 <= j < m implies #[trigger] y[j] == sum(
            q.len() as int,
            |c: int| q[c][j] * z(c),
        ) by {
            lemma_outer_row(xs, ys, m, x, j);
            lemma_sum_ext(
                k,
                |c: int|
                    qr_q(false, ys, m)[c][j] * sum(
                        ys.len() as int,
                        |t: int| qr_r(false, ys, m, c, t) * xs[t][x],
                    ),
                |c: int| q[c][j] * z(c),
            );
        }
        lemma_no_closer(v, q, z, y);
        let e = combined(v, -1real, y);
        let f = |j: int| e[j] * e[j];
        let g = |j: int|
            (graded_row(a, r, x)[j] - outer_sum(xs, ys, x, j)) * (graded_row(a, r, x)[j]
                - outer_sum(xs, ys, x, j));
        assert forall|j: int| 0 <= j < m implies #[trigger] f(j) == g(j) by {
            lemma_one(y[j]);
            assert(e[j] == v[j] - y[j]);
        }
        lemma_sum_ext(m, f, g);
    }
    lemma_sum_at_most(n, whole, both);
    lemma_sum_add(n, missed, off);
    lemma_sum_ext(n, both, |x: int| missed(x) + off(x));
    // All rows together are as long as the lengths.
    let coef = |i: int, x: int| a[i][x];
    let sf = |i: int| s[i];
    assert forall|i: int| 0 <= i < m implies sum(n, |x: int| coef(i, x) * coef(i, x))
        == #[trigger] sf(i) * sf(i) by {
        assert(inner(a[i], a[i]) == s[i] * s[i]);
        lemma_sum_ext(n, |x: int| coef(i, x) * coef(i, x), |x: int| a[i][x] * a[i][x]);
    }
    lemma_energy(n, r, m, coef, sf);
    let lines = |x: int|
        sum(
            m,
            |j: int|
                {
                    let y = sum(r.len() as int, |i: int| r[i][j] * coef(i, x));
                    y * y
                },
        );
    assert forall|x: int| 0 <= x < n implies #[trigger] whole(x) == lines(x) by {
        let v = graded_row(a, r, x);
        let f = |j: int| v[j] * v[j];
        let g = |j: int|
            {
                let y = sum(r.len() as int, |i: int| r[i][j] * coef(i, x));
                y * y
            };
        assert forall|j: int| 0 <= j < m implies #[trigger] f(j) == g(j) by {
            lemma_sum_ext(m, |i: int| r[i][j] * a[i][x], |i: int| r[i][j] * coef(i, x));
        }
        lemma_sum_ext(m, f, g);
    }
    lemma_sum_ext(n, whole, lines);
    let d = |i: int| s[i] * s[i];
    lemma_sum_ext(m, |i: int| sf(i) * sf(i), d);
    lemma_sum_split(m - k, k, d);
    lemma_sum_ext(k, d, |i: int| s[i] * s[i]);
    lemma_sum_ext(m - k, |i: int| d(k + i), |i: int| s[k + i] * s[k + i]);
}

/// What `k` products miss of the matrix is not less than its lengths behind the first `k`, up to
/// the threshold.
pub proof fn lemma_best(
    a: Seq<Seq<real>>,
    n: int,
    r: Seq<Seq<real>>,
    s: Seq<real>,
    eps: real,
    xs: Seq<Seq<real>>,
    ys: Seq<Seq<real>>,
)
    requires
        roots_exist(),
        graded(a, n, r, s, eps),
        xs.len() == ys.len(),
        ys.len() <= r.len(),
        tall(ys, r.len() as int),
    ensures
        ({
            let m = r.len() as int;
            let k = ys.len() as int;
            let top = sum(k, |i: int| s[i] * s[i]);
            sum(m - k, |i: int| s[k + i] * s[k + i]) <= gap(a, n, r, xs, ys) + (eps * (m as real))
                * top
        }),
{
    let m = r.len() as int;
    lemma_spanning(ys, m);
    lemma_gain(a, n, r, s, eps, qr_q(false, ys, m));
    let top = sum(ys.len() as int, |i: int| s[i] * s[i]);
    lemma_best_but(a, n, r, s, xs, ys, (eps * (m as real)) * top);
}

/// What `k` products miss of the matrix is not less than its lengths behind the first `k`, but for
/// how far the vectors are from orthogonal.
pub proof fn lemma_best_any(
    a: Seq<Seq<real>>,
    n: int,
    r: Seq<Seq<real>>,
    s: Seq<real>,
    xs: Seq<Seq<real>>,
    ys: Seq<Seq<real>>,
)
    requires
        roots_exist(),
        family(a, n, r, s),
        xs.len() == ys.len(),
        ys.len() <= r.len(),
        tall(ys, r.len() as int),
    ensures
        ({
            let m = r.len() as int;
            let k = ys.len() as int;
            sum(m - k, |i: int| s[k + i] * s[k + i]) <= gap(a, n, r, xs, ys) + (k as real)
                * tangle(a).root()
        }),
{
    let m = r.len() as int;
    lemma_spanning(ys, m);
    lemma_gain_any(a, n, r, s, qr_q(false, ys, m));
    lemma_best_but(a, n, r, s, xs, ys, (ys.len() as real) * tangle(a).root());
}

/// The columns of a state, by their ranks.
pub open spec fn ranked_columns(st: Jacobi<real>) -> Seq<Seq<real>> {
    Seq::new(st.a.len(), |i: int| st.a[triplet(st, i)])
}

/// The columns and the right singular vectors of a state, by their ranks.
proof fn lemma_family(lanes: bool, data: Seq<real>, n: int, m: int, sweeps: int)
    requires
        roots_exist(),
        0 <= n,
        0 <= m,
    ensures
        ({
            let st = svd_state::<real, real>(lanes, data, n, m, sweeps);
            let a = ranked_columns(st);
            let r = Seq::new(m as nat, |i: int| st.v[triplet(st, i)]);
            let s = Seq::new(m as nat, |i: int| singular_value(st, i));
            st.a.len() == m && family(a, n, r, s)
        }),
{
    let st = svd_state::<real, real>(lanes, data, n, m, sweeps);
    let a = ranked_columns(st);
    let r = Seq::new(m as nat, |i: int| st.v[triplet(st, i)]);
    let s = Seq::new(m as nat, |i: int| singular_value(st, i));
    lemma_ranks(lanes, data, n, m, sweeps);
    assert forall|i: int| 0 <= i < m implies (#[trigger] a[i]).len() == n by {
        assert(0 <= triplet(st, i) < m);
    }
    assert forall|i: int| 0 <= i < m implies (#[trigger] r[i]).len() == m by {
        assert(0 <= triplet(st, i) < m);
    }
    assert forall|i: int, j: int| 0 <= i < m && 0 <= j < m implies inner(
        #[trigger] r[i],
        #[trigger] r[j],
    ) == delta(i, j) by {
        law_right_orthonormal(lanes, data, n, m, sweeps, i, j);
        lemma_sum_ext(
            m,
            |x: int| r[i][x] * r[j][x],
            |x: int| right_entry(st, x, i) * right_entry(st, x, j),
        );
    }
    assert forall|x: int, y: int| 0 <= x < m && 0 <= y < m implies #[trigger] spanned(r, x, y)
        == delta(x, y) by {
        law_right_complete(lanes, data, n, m, sweeps, x, y);
        lemma_sum_ext(
            m,
            |i: int| r[i][x] * r[i][y],
            |i: int| right_entry(st, x, i) * right_entry(st, y, i),
        );
    }
    assert forall|i: int| 0 <= i < m implies #[trigger] s[i] >= 0real by {
        lemma_length(a[i]);
    }
    assert forall|i: int, j: int| 0 <= i < j < m implies #[trigger] s[j] <= #[trigger] s[i] by {
        assert(singular_value(st, j) <= singular_value(st, i));
    }
    assert forall|i: int| 0 <= i < m implies inner(#[trigger] a[i], a[i]) == s[i] * s[i] by {
        lemma_length(a[i]);
    }
}

/// The columns and the right singular vectors of a settled state, by their ranks.
proof fn lemma_graded(lanes: bool, data: Seq<real>, n: int, m: int, sweeps: int)
    requires
        roots_exist(),
        0 <= n,
        0 <= m,
        all_settled(lanes, svd_state::<real, real>(lanes, data, n, m, sweeps)),
    ensures
        ({
            let st = svd_state::<real, real>(lanes, data, n, m, sweeps);
            let a = ranked_columns(st);
            let r = Seq::new(m as nat, |i: int| st.v[triplet(st, i)]);
            let s = Seq::new(m as nat, |i: int| singular_value(st, i));
            st.a.len() == m && graded(a, n, r, s, real::tenth_pow(JACOBI_PLACES))
        }),
{
    let st = svd_state::<real, real>(lanes, data, n, m, sweeps);
    let a = ranked_columns(st);
    let s = Seq::new(m as nat, |i: int| singular_value(st, i));
    let eps = real::tenth_pow(JACOBI_PLACES);
    lemma_tenth_positive(JACOBI_PLACES);
    lemma_ranks(lanes, data, n, m, sweeps);
    lemma_family(lanes, data, n, m, sweeps);
    assert forall|i: int, j: int| 0 <= i < m && 0 <= j < m && i != j implies -(eps * (s[i] * s[j]))
        <= inner(#[trigger] a[i], #[trigger] a[j]) <= eps * (s[i] * s[j]) by {
        let (p, q) = (triplet(st, i), triplet(st, j));
        if i < j {
            assert(p != q);
        } else {
            assert(q != p);
        }
        lemma_inner_comm(a[i], a[j]);
        lemma_comm(s[i], s[j]);
        lemma_comm(s[i] * s[j], eps);
        if p < q {
            lemma_settled(lanes, st.a[p], st.a[q]);
        } else {
            lemma_settled(lanes, st.a[q], st.a[p]);
        }
    }
}

/// What the products of `xs` and `ys` miss of the matrix, by its triplets.
proof fn lemma_data_gap(
    lanes: bool,
    data: Seq<real>,
    n: int,
    m: int,
    sweeps: int,
    xs: Seq<Seq<real>>,
    ys: Seq<Seq<real>>,
)
    requires
        roots_exist(),
        0 <= n,
        0 <= m,
    ensures
        ({
            let st = svd_state::<real, real>(lanes, data, n, m, sweeps);
            let r = Seq::new(m as nat, |i: int| st.v[triplet(st, i)]);
            gap(ranked_columns(st), n, r, xs, ys) == sum(
                n,
                |r: int|
                    sum(
                        m,
                        |j: int|
                            (data[cell(r, m, j)] - outer_sum(xs, ys, r, j)) * (data[cell(r, m, j)]
                                - outer_sum(xs, ys, r, j)),
                    ),
            )
        }),
{
    let st = svd_state::<real, real>(lanes, data, n, m, sweeps);
    let a = ranked_columns(st);
    let r = Seq::new(m as nat, |i: int| st.v[triplet(st, i)]);
    lemma_ranks(lanes, data, n, m, sweeps);
    let by_row = |x: int|
        sum(
            r.len() as int,
            |j: int|
                (graded_row(a, r, x)[j] - outer_sum(xs, ys, x, j)) * (graded_row(a, r, x)[j]
                    - outer_sum(xs, ys, x, j)),
        );
    let of_data = |x: int|
        sum(
            m,
            |j: int|
                (data[cell(x, m, j)] - outer_sum(xs, ys, x, j)) * (data[cell(x, m, j)] - outer_sum(
                    xs,
                    ys,
                    x,
                    j,
                )),
        );
    assert forall|x: int| 0 <= x < n implies #[trigger] by_row(x) == of_data(x) by {
        let f = |j: int|
            (graded_row(a, r, x)[j] - outer_sum(xs, ys, x, j)) * (graded_row(a, r, x)[j]
                - outer_sum(xs, ys, x, j));
        let g = |j: int|
            (data[cell(x, m, j)] - outer_sum(xs, ys, x, j)) * (data[cell(x, m, j)] - outer_sum(
                xs,
                ys,
                x,
                j,
            ));
        assert forall|j: int| 0 <= j < m implies #[trigger] f(j) == g(j) by {
            law_svd_product(lanes, data, n, m, sweeps, m, x, j);
            let term = |i: int|
                left_entry(lanes, st, n, x, i) * singular_value(st, i) * right_entry(st, j, i);
            let h = |i: int| r[i][j] * a[i][x];
            assert forall|i: int| 0 <= i < m implies #[trigger] term(i) == h(i) by {
                lemma_image(lanes, data, n, m, sweeps, x, i);
                lemma_comm(a[i][x], r[i][j]);
            }
            lemma_sum_ext(m, term, h);
        }
        lemma_sum_ext(m, f, g);
    }
    lemma_sum_ext(n, by_row, of_data);
    lemma_sum_ext(
        n,
        of_data,
        |x: int|
            sum(
                m,
                |j: int|
                    (data[cell(x, m, j)] - outer_sum(xs, ys, x, j)) * (data[cell(x, m, j)]
                        - outer_sum(xs, ys, x, j)),
            ),
    );
}

/// The first triplets are the best: once all pairs are settled, no sum of as many products of two
/// vectors comes closer to the matrix than they do, up to the threshold.
///
/// The squares of what the first `k` triplets miss add up to no more than those of what the
/// products of `xs` and `ys` miss, but for `10^-12` times the number of columns of the squares of
/// the `k` largest singular values.
pub proof fn law_best(
    lanes: bool,
    data: Seq<real>,
    n: int,
    m: int,
    sweeps: int,
    xs: Seq<Seq<real>>,
    ys: Seq<Seq<real>>,
)
    requires
        roots_exist(),
        0 <= n,
        xs.len() == ys.len(),
        ys.len() <= m,
        tall(xs, n),
        tall(ys, m),
        all_settled(lanes, svd_state::<real, real>(lanes, data, n, m, sweeps)),
    ensures
        ({
            let st = svd_state::<real, real>(lanes, data, n, m, sweeps);
            let k = xs.len() as int;
            sum(
                n,
                |r: int|
                    sum(
                        m,
                        |j: int|
                            missing(lanes, data, n, m, sweeps, k, r, j) * missing(
                                lanes,
                                data,
                                n,
                                m,
                                sweeps,
                                k,
                                r,
                                j,
                            ),
                    ),
            ) <= sum(
                n,
                |r: int|
                    sum(
                        m,
                        |j: int|
                            (data[cell(r, m, j)] - outer_sum(xs, ys, r, j)) * (data[cell(r, m, j)]
                                - outer_sum(xs, ys, r, j)),
                    ),
            ) + (real::tenth_pow(JACOBI_PLACES) * (m as real)) * sum(
                k,
                |i: int| singular_value(st, i) * singular_value(st, i),
            )
        }),
{
    let st = svd_state::<real, real>(lanes, data, n, m, sweeps);
    let k = xs.len() as int;
    let a = ranked_columns(st);
    let r = Seq::new(m as nat, |i: int| st.v[triplet(st, i)]);
    let s = Seq::new(m as nat, |i: int| singular_value(st, i));
    let eps = real::tenth_pow(JACOBI_PLACES);
    lemma_graded(lanes, data, n, m, sweeps);
    lemma_best(a, n, r, s, eps, xs, ys);
    lemma_data_gap(lanes, data, n, m, sweeps, xs, ys);
    law_truncation(lanes, data, n, m, sweeps, k);
    lemma_sum_ext(
        m - k,
        |i: int| s[k + i] * s[k + i],
        |i: int| singular_value(st, k + i) * singular_value(st, k + i),
    );
    lemma_sum_ext(
        k,
        |i: int| s[i] * s[i],
        |i: int| singular_value(st, i) * singular_value(st, i),
    );
}

/// The order of the columns makes no difference to how far they are from orthogonal.
proof fn lemma_ranked_tangle(lanes: bool, data: Seq<real>, n: int, m: int, sweeps: int)
    requires
        roots_exist(),
        0 <= n,
        0 <= m,
    ensures
        ({
            let st = svd_state::<real, real>(lanes, data, n, m, sweeps);
            tangle(ranked_columns(st)) == tangle(st.a)
        }),
{
    let st = svd_state::<real, real>(lanes, data, n, m, sweeps);
    lemma_ranks(lanes, data, n, m, sweeps);
    let b = ranked_columns(st);
    let sigma = lengths(st.a);
    let order = ranked(sigma, m);
    let f = |x: int, y: int|
        if x == y {
            0real
        } else {
            overlap2(st.a[x], st.a[y])
        };
    let row = |x: int| sum(m, |y: int| f(x, y));
    let lines = |x: int|
        sum(
            st.a.len() as int,
            |y: int|
                if x == y {
                    0real
                } else {
                    overlap2(st.a[x], st.a[y])
                },
        );
    assert forall|x: int| 0 <= x < m implies #[trigger] lines(x) == row(x) by {
        lemma_sum_ext(
            m,
            |y: int|
                if x == y {
                    0real
                } else {
                    overlap2(st.a[x], st.a[y])
                },
            |y: int| f(x, y),
        );
    }
    lemma_sum_ext(m, lines, row);
    lemma_ranked_sum(sigma, m, row);
    let ranked_row = |i: int| row(order[i]);
    let ranked_lines = |i: int|
        sum(
            b.len() as int,
            |j: int|
                if i == j {
                    0real
                } else {
                    overlap2(b[i], b[j])
                },
        );
    assert forall|i: int| 0 <= i < m implies #[trigger] ranked_lines(i) == ranked_row(i) by {
        let x = order[i];
        assert(x == triplet(st, i));
        let fx = |y: int| f(x, y);
        lemma_ranked_sum(sigma, m, fx);
        let g = |j: int| fx(order[j]);
        let h = |j: int|
            if i == j {
                0real
            } else {
                overlap2(b[i], b[j])
            };
        assert forall|j: int| 0 <= j < m implies #[trigger] g(j) == h(j) by {
            assert(order[j] == triplet(st, j));
            if i < j {
                assert(triplet(st, i) != triplet(st, j));
            } else if j < i {
                assert(triplet(st, j) != triplet(st, i));
            }
        }
        lemma_sum_ext(m, g, h);
        lemma_sum_ext(m, g, |j: int| fx(ranked(sigma, m)[j]));
    }
    lemma_sum_ext(m, ranked_lines, ranked_row);
    lemma_sum_ext(m, ranked_row, |i: int| row(ranked(sigma, m)[i]));
}

/// After any number of sweeps the first triplets are the best, but for how far the columns are from
/// orthogonal: no sum of `k` products of two vectors comes closer to the matrix than the first `k`
/// triplets, up to `k` times the root of the tangle of the columns.
pub proof fn law_best_any(
    lanes: bool,
    data: Seq<real>,
    n: int,
    m: int,
    sweeps: int,
    xs: Seq<Seq<real>>,
    ys: Seq<Seq<real>>,
)
    requires
        roots_exist(),
        0 <= n,
        xs.len() == ys.len(),
        ys.len() <= m,
        tall(xs, n),
        tall(ys, m),
    ensures
        ({
            let st = svd_state::<real, real>(lanes, data, n, m, sweeps);
            let k = xs.len() as int;
            sum(
                n,
                |r: int|
                    sum(
                        m,
                        |j: int|
                            missing(lanes, data, n, m, sweeps, k, r, j) * missing(
                                lanes,
                                data,
                                n,
                                m,
                                sweeps,
                                k,
                                r,
                                j,
                            ),
                    ),
            ) <= sum(
                n,
                |r: int|
                    sum(
                        m,
                        |j: int|
                            (data[cell(r, m, j)] - outer_sum(xs, ys, r, j)) * (data[cell(r, m, j)]
                                - outer_sum(xs, ys, r, j)),
                    ),
            ) + (k as real) * tangle(st.a).root()
        }),
{
    let st = svd_state::<real, real>(lanes, data, n, m, sweeps);
    let k = xs.len() as int;
    let a = ranked_columns(st);
    let r = Seq::new(m as nat, |i: int| st.v[triplet(st, i)]);
    let s = Seq::new(m as nat, |i: int| singular_value(st, i));
    lemma_family(lanes, data, n, m, sweeps);
    lemma_ranked_tangle(lanes, data, n, m, sweeps);
    lemma_best_any(a, n, r, s, xs, ys);
    lemma_data_gap(lanes, data, n, m, sweeps, xs, ys);
    law_truncation(lanes, data, n, m, sweeps, k);
    lemma_sum_ext(
        m - k,
        |i: int| s[k + i] * s[k + i],
        |i: int| singular_value(st, k + i) * singular_value(st, k + i),
    );
}

/// The left vectors of a tall matrix, each times its singular value.
pub open spec fn tall_columns(
    lanes: bool,
    cols: Seq<Seq<real>>,
    n: int,
    sweeps: int,
) -> Seq<Seq<real>> {
    let st = reduced_state::<real, real>(lanes, cols, n, sweeps);
    Seq::new(
        cols.len(),
        |i: int|
            Seq::new(
                n as nat,
                |x: int|
                    tall_left::<real, real>(lanes, cols, n, sweeps, x, i) * singular_value(st, i),
            ),
    )
}

/// Their inner products are those of the columns of the reduced state.
proof fn lemma_tall_inner(lanes: bool, cols: Seq<Seq<real>>, n: int, sweeps: int, i: int, j: int)
    requires
        roots_exist(),
        tall(cols, n),
        cols.len() <= n,
        0 <= i < cols.len(),
        0 <= j < cols.len(),
    ensures
        ({
            let st = reduced_state::<real, real>(lanes, cols, n, sweeps);
            let a = tall_columns(lanes, cols, n, sweeps);
            inner(a[i], a[j]) == inner(st.a[triplet(st, i)], st.a[triplet(st, j)])
        }),
{
    let m = cols.len() as int;
    let square = square_r(lanes, cols, n);
    let st = reduced_state::<real, real>(lanes, cols, n, sweeps);
    let a = tall_columns(lanes, cols, n, sweeps);
    let left = |x: int, i: int| tall_left::<real, real>(lanes, cols, n, sweeps, x, i);
    law_tall_left(lanes, cols, n, sweeps, i, j);
    lemma_left_inner(lanes, square, m, m, sweeps, i, j);
    let ll = |x: int| left(x, i) * left(x, j);
    lemma_sum_ext(
        n,
        |x: int|
            tall_left::<real, real>(lanes, cols, n, sweeps, x, i) * tall_left::<real, real>(
                lanes,
                cols,
                n,
                sweeps,
                x,
                j,
            ),
        ll,
    );
    let (si, sj) = (singular_value(st, i), singular_value(st, j));
    let ss = si * sj;
    lemma_sum_scale(n, ll, ss);
    let f = |x: int| a[i][x] * a[j][x];
    let g = |x: int| ss * ll(x);
    assert forall|x: int| 0 <= x < n implies #[trigger] f(x) == g(x) by {
        lemma_regroup(left(x, i), si, left(x, j), sj);
        lemma_comm(ll(x), ss);
    }
    lemma_sum_ext(n, f, g);
}

/// The scaled left vectors and the right singular vectors of a tall matrix.
proof fn lemma_tall_family(lanes: bool, cols: Seq<Seq<real>>, n: int, sweeps: int)
    requires
        roots_exist(),
        tall(cols, n),
        cols.len() <= n,
    ensures
        ({
            let m = cols.len();
            let st = reduced_state::<real, real>(lanes, cols, n, sweeps);
            let r = Seq::new(m, |i: int| Seq::new(m, |j: int| right_entry(st, j, i)));
            let s = Seq::new(m, |i: int| singular_value(st, i));
            family(tall_columns(lanes, cols, n, sweeps), n, r, s)
        }),
{
    let m = cols.len() as int;
    let square = square_r(lanes, cols, n);
    let st = reduced_state::<real, real>(lanes, cols, n, sweeps);
    let a = tall_columns(lanes, cols, n, sweeps);
    let r = Seq::new(
        cols.len(),
        |i: int| Seq::new(cols.len(), |j: int| right_entry(st, j, i)),
    );
    let s = Seq::new(cols.len(), |i: int| singular_value(st, i));
    assert forall|i: int, j: int| 0 <= i < m && 0 <= j < m implies inner(
        #[trigger] r[i],
        #[trigger] r[j],
    ) == delta(i, j) by {
        law_tall_right(lanes, cols, n, sweeps, i, j);
        lemma_sum_ext(
            m,
            |x: int| r[i][x] * r[j][x],
            |x: int| right_entry(st, x, i) * right_entry(st, x, j),
        );
    }
    assert forall|x: int, y: int| 0 <= x < m && 0 <= y < m implies #[trigger] spanned(r, x, y)
        == delta(x, y) by {
        law_right_complete(lanes, square, m, m, sweeps, x, y);
        lemma_sum_ext(
            m,
            |i: int| r[i][x] * r[i][y],
            |i: int| right_entry(st, x, i) * right_entry(st, y, i),
        );
    }
    assert forall|i: int| 0 <= i < m implies #[trigger] s[i] >= 0real by {
        law_values_descending(lanes, square, m, m, sweeps, i, i);
    }
    assert forall|i: int, j: int| 0 <= i < j < m implies #[trigger] s[j] <= #[trigger] s[i] by {
        law_values_descending(lanes, square, m, m, sweeps, i, j);
    }
    assert forall|i: int| 0 <= i < m implies inner(#[trigger] a[i], a[i]) == s[i] * s[i] by {
        lemma_tall_inner(lanes, cols, n, sweeps, i, i);
        lemma_length(st.a[triplet(st, i)]);
    }
}

/// The scaled left vectors and the right singular vectors of a tall matrix with a settled state.
proof fn lemma_tall_graded(lanes: bool, cols: Seq<Seq<real>>, n: int, sweeps: int)
    requires
        roots_exist(),
        tall(cols, n),
        cols.len() <= n,
        all_settled(lanes, reduced_state::<real, real>(lanes, cols, n, sweeps)),
    ensures
        ({
            let m = cols.len();
            let st = reduced_state::<real, real>(lanes, cols, n, sweeps);
            let r = Seq::new(m, |i: int| Seq::new(m, |j: int| right_entry(st, j, i)));
            let s = Seq::new(m, |i: int| singular_value(st, i));
            graded(tall_columns(lanes, cols, n, sweeps), n, r, s, real::tenth_pow(JACOBI_PLACES))
        }),
{
    let m = cols.len() as int;
    let st = reduced_state::<real, real>(lanes, cols, n, sweeps);
    let a = tall_columns(lanes, cols, n, sweeps);
    let s = Seq::new(cols.len(), |i: int| singular_value(st, i));
    let eps = real::tenth_pow(JACOBI_PLACES);
    lemma_tall_family(lanes, cols, n, sweeps);
    lemma_graded(lanes, square_r(lanes, cols, n), m, m, sweeps);
    let b = ranked_columns(st);
    assert forall|i: int, j: int| 0 <= i < m && 0 <= j < m && i != j implies -(eps * (s[i] * s[j]))
        <= inner(#[trigger] a[i], #[trigger] a[j]) <= eps * (s[i] * s[j]) by {
        lemma_tall_inner(lanes, cols, n, sweeps, i, j);
        assert(inner(b[i], b[j]) == inner(a[i], a[j]));
    }
}

/// What the products of `xs` and `ys` miss of a tall matrix, by its triplets.
proof fn lemma_tall_gap(
    lanes: bool,
    cols: Seq<Seq<real>>,
    n: int,
    sweeps: int,
    xs: Seq<Seq<real>>,
    ys: Seq<Seq<real>>,
)
    requires
        roots_exist(),
        tall(cols, n),
        cols.len() <= n,
    ensures
        ({
            let m = cols.len() as int;
            let st = reduced_state::<real, real>(lanes, cols, n, sweeps);
            let r = Seq::new(
                cols.len(),
                |i: int| Seq::new(cols.len(), |j: int| right_entry(st, j, i)),
            );
            gap(tall_columns(lanes, cols, n, sweeps), n, r, xs, ys) == sum(
                n,
                |r: int|
                    sum(
                        m,
                        |j: int|
                            (cols[j][r] - outer_sum(xs, ys, r, j)) * (cols[j][r] - outer_sum(
                                xs,
                                ys,
                                r,
                                j,
                            )),
                    ),
            )
        }),
{
    let m = cols.len() as int;
    let st = reduced_state::<real, real>(lanes, cols, n, sweeps);
    let a = tall_columns(lanes, cols, n, sweeps);
    let r = Seq::new(
        cols.len(),
        |i: int| Seq::new(cols.len(), |j: int| right_entry(st, j, i)),
    );
    let by_row = |x: int|
        sum(
            r.len() as int,
            |j: int|
                (graded_row(a, r, x)[j] - outer_sum(xs, ys, x, j)) * (graded_row(a, r, x)[j]
                    - outer_sum(xs, ys, x, j)),
        );
    let of_cols = |x: int|
        sum(
            m,
            |j: int|
                (cols[j][x] - outer_sum(xs, ys, x, j)) * (cols[j][x] - outer_sum(xs, ys, x, j)),
        );
    assert forall|x: int| 0 <= x < n implies #[trigger] by_row(x) == of_cols(x) by {
        let f = |j: int|
            (graded_row(a, r, x)[j] - outer_sum(xs, ys, x, j)) * (graded_row(a, r, x)[j]
                - outer_sum(xs, ys, x, j));
        let g = |j: int|
            (cols[j][x] - outer_sum(xs, ys, x, j)) * (cols[j][x] - outer_sum(xs, ys, x, j));
        assert forall|j: int| 0 <= j < m implies #[trigger] f(j) == g(j) by {
            law_tall_product(lanes, cols, n, sweeps, m, x, j);
            let term = |i: int|
                tall_left::<real, real>(lanes, cols, n, sweeps, x, i) * singular_value(st, i)
                    * right_entry(st, j, i);
            let h = |i: int| r[i][j] * a[i][x];
            assert forall|i: int| 0 <= i < m implies #[trigger] term(i) == h(i) by {
                lemma_comm(a[i][x], r[i][j]);
            }
            lemma_sum_ext(m, term, h);
        }
        lemma_sum_ext(m, f, g);
    }
    lemma_sum_ext(n, by_row, of_cols);
    lemma_sum_ext(
        n,
        of_cols,
        |x: int|
            sum(
                m,
                |j: int|
                    (cols[j][x] - outer_sum(xs, ys, x, j)) * (cols[j][x] - outer_sum(xs, ys, x, j)),
            ),
    );
}

/// The first triplets of a tall matrix are the best: once all pairs are settled, no sum of as many
/// products of two vectors comes closer to the matrix, up to the threshold.
pub proof fn law_tall_best(
    lanes: bool,
    cols: Seq<Seq<real>>,
    n: int,
    sweeps: int,
    xs: Seq<Seq<real>>,
    ys: Seq<Seq<real>>,
)
    requires
        roots_exist(),
        tall(cols, n),
        cols.len() <= n,
        xs.len() == ys.len(),
        ys.len() <= cols.len(),
        tall(xs, n),
        tall(ys, cols.len() as int),
        all_settled(lanes, reduced_state::<real, real>(lanes, cols, n, sweeps)),
    ensures
        ({
            let m = cols.len() as int;
            let st = reduced_state::<real, real>(lanes, cols, n, sweeps);
            let k = xs.len() as int;
            sum(
                n,
                |r: int|
                    sum(
                        m,
                        |j: int|
                            tall_missing(lanes, cols, n, sweeps, k, r, j) * tall_missing(
                                lanes,
                                cols,
                                n,
                                sweeps,
                                k,
                                r,
                                j,
                            ),
                    ),
            ) <= sum(
                n,
                |r: int|
                    sum(
                        m,
                        |j: int|
                            (cols[j][r] - outer_sum(xs, ys, r, j)) * (cols[j][r] - outer_sum(
                                xs,
                                ys,
                                r,
                                j,
                            )),
                    ),
            ) + (real::tenth_pow(JACOBI_PLACES) * (m as real)) * sum(
                k,
                |i: int| singular_value(st, i) * singular_value(st, i),
            )
        }),
{
    let m = cols.len() as int;
    let st = reduced_state::<real, real>(lanes, cols, n, sweeps);
    let k = xs.len() as int;
    let a = tall_columns(lanes, cols, n, sweeps);
    let r = Seq::new(
        cols.len(),
        |i: int| Seq::new(cols.len(), |j: int| right_entry(st, j, i)),
    );
    let s = Seq::new(cols.len(), |i: int| singular_value(st, i));
    let eps = real::tenth_pow(JACOBI_PLACES);
    lemma_tall_graded(lanes, cols, n, sweeps);
    lemma_best(a, n, r, s, eps, xs, ys);
    lemma_tall_gap(lanes, cols, n, sweeps, xs, ys);
    law_tall_truncation(lanes, cols, n, sweeps, k);
    lemma_sum_ext(
        m - k,
        |i: int| s[k + i] * s[k + i],
        |i: int| singular_value(st, k + i) * singular_value(st, k + i),
    );
    lemma_sum_ext(
        k,
        |i: int| s[i] * s[i],
        |i: int| singular_value(st, i) * singular_value(st, i),
    );
}

/// After any number of sweeps the first triplets of a tall matrix are the best, up to `k` times the
/// root of the tangle of the columns.
pub proof fn law_tall_best_any(
    lanes: bool,
    cols: Seq<Seq<real>>,
    n: int,
    sweeps: int,
    xs: Seq<Seq<real>>,
    ys: Seq<Seq<real>>,
)
    requires
        roots_exist(),
        tall(cols, n),
        cols.len() <= n,
        xs.len() == ys.len(),
        ys.len() <= cols.len(),
        tall(xs, n),
        tall(ys, cols.len() as int),
    ensures
        ({
            let m = cols.len() as int;
            let st = reduced_state::<real, real>(lanes, cols, n, sweeps);
            let k = xs.len() as int;
            sum(
                n,
                |r: int|
                    sum(
                        m,
                        |j: int|
                            tall_missing(lanes, cols, n, sweeps, k, r, j) * tall_missing(
                                lanes,
                                cols,
                                n,
                                sweeps,
                                k,
                                r,
                                j,
                            ),
                    ),
            ) <= sum(
                n,
                |r: int|
                    sum(
                        m,
                        |j: int|
                            (cols[j][r] - outer_sum(xs, ys, r, j)) * (cols[j][r] - outer_sum(
                                xs,
                                ys,
                                r,
                                j,
                            )),
                    ),
            ) + (k as real) * tangle(st.a).root()
        }),
{
    let m = cols.len() as int;
    let st = reduced_state::<real, real>(lanes, cols, n, sweeps);
    let k = xs.len() as int;
    let a = tall_columns(lanes, cols, n, sweeps);
    let r = Seq::new(
        cols.len(),
        |i: int| Seq::new(cols.len(), |j: int| right_entry(st, j, i)),
    );
    let s = Seq::new(cols.len(), |i: int| singular_value(st, i));
    lemma_tall_family(lanes, cols, n, sweeps);
    lemma_best_any(a, n, r, s, xs, ys);
    lemma_tall_gap(lanes, cols, n, sweeps, xs, ys);
    law_tall_truncation(lanes, cols, n, sweeps, k);
    lemma_sum_ext(
        m - k,
        |i: int| s[k + i] * s[k + i],
        |i: int| singular_value(st, k + i) * singular_value(st, k + i),
    );
    // The tangle is that of the columns.
    lemma_ranked_tangle(lanes, square_r(lanes, cols, n), m, m, sweeps);
    lemma_ranks(lanes, square_r(lanes, cols, n), m, m, sweeps);
    let b = ranked_columns(st);
    let f = |x: int|
        sum(
            a.len() as int,
            |y: int|
                if x == y {
                    0real
                } else {
                    overlap2(a[x], a[y])
                },
        );
    let g = |x: int|
        sum(
            b.len() as int,
            |y: int|
                if x == y {
                    0real
                } else {
                    overlap2(b[x], b[y])
                },
        );
    assert forall|x: int| 0 <= x < m implies #[trigger] f(x) == g(x) by {
        let p = |y: int|
            if x == y {
                0real
            } else {
                overlap2(a[x], a[y])
            };
        let q = |y: int|
            if x == y {
                0real
            } else {
                overlap2(b[x], b[y])
            };
        assert forall|y: int| 0 <= y < m implies #[trigger] p(y) == q(y) by {
            lemma_tall_inner(lanes, cols, n, sweeps, x, y);
        }
        lemma_sum_ext(m, p, q);
    }
    lemma_sum_ext(m, f, g);
}

} // verus!
