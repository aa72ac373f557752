//! What rounding can do to Householder QR: every step is close to the exact step on the numbers
//! that it begins with, in an arithmetic whose operations have a small relative error.

use crate::algebra::{lemma_comm, lemma_negate, lemma_one, lemma_square, lemma_zero};
use crate::error_laws::{abs, accurate, power, within};
use crate::exact::{inner, lemma_inner_comm, lemma_root, lemma_running_dot, lemma_sum_squares, sum};
use crate::house::{
    axis, cleared, house, house_taus, lemma_house_shape, lemma_reflected_len, lesser, overlap,
    q_column, qr_q, qr_r, reflected, reflected_below, reflector, sub_scaled, tall, unwound,
};
use crate::lanes::{lane_dot, running_dot};
use crate::mirror::{lemma_inner_padded, mirror, padded};
use crate::ratio::{
    agree, lemma_agree_more, lemma_agree_negated, lemma_agree_on, lemma_agree_over,
    lemma_agree_plus, lemma_agree_root, lemma_agree_self, lemma_agree_times, lemma_agree_within,
    lemma_factor, lemma_factor_order, lemma_factor_sum,
};
use crate::rounding_laws::{
    grown, held, law_lane_dot_rounded, lemma_grown, lemma_grown_order, lemma_held_exact,
    lemma_held_minus, lemma_held_more, lemma_held_plus, lemma_held_scaled, lemma_held_times,
    lemma_running_held, sizes, vals,
};
use crate::scalar::{roots_exist, Number};
use crate::svd::completed;
use vstd::prelude::*;

verus! {

/// An arithmetic with the relative error `eps`, and the factor `b` that goes with it:
/// `1 / (1 - eps)`, or more.
pub open spec fn steady<T: Number>(val: spec_fn(T) -> real, eps: real, b: real) -> bool {
    &&& 0real <= eps < 1real
    &&& b >= 1real
    &&& (1real - eps) * b >= 1real
    &&& accurate(val, eps)
}

/// Numbers that agree up to the factors of `n` operations.
pub open spec fn like(x: real, y: real, b: real, n: int) -> bool {
    agree(x, y, power(b, n))
}

pub proof fn lemma_like_more(x: real, y: real, b: real, n: int, m: int)
    requires
        b >= 1real,
        0 <= n <= m,
        like(x, y, b, n),
    ensures
        like(x, y, b, m),
{
    lemma_factor_order(b, n, m);
    lemma_agree_more(x, y, power(b, n), power(b, m));
}

/// One more rounding.
pub proof fn lemma_like_rounded(z: real, x: real, y: real, eps: real, b: real, n: int)
    requires
        0real <= eps < 1real,
        b >= 1real,
        (1real - eps) * b >= 1real,
        0 <= n,
        within(z, x, eps * abs(x)),
        like(x, y, b, n),
    ensures
        like(z, y, b, n + 1),
{
    lemma_agree_within(z, x, eps, b);
    lemma_factor(b, n);
    lemma_agree_on(z, x, y, b, power(b, n));
    lemma_comm(b, power(b, n));
}

pub proof fn lemma_like_self(x: real, b: real)
    requires
        b >= 1real,
    ensures
        like(x, x, b, 0),
{
    lemma_agree_self(x, 1real);
}

pub proof fn lemma_like_times(x: real, y: real, n: int, p: real, q: real, m: int, b: real)
    requires
        b >= 1real,
        0 <= n,
        0 <= m,
        like(x, y, b, n),
        like(p, q, b, m),
    ensures
        like(x * p, y * q, b, n + m),
{
    lemma_factor(b, n);
    lemma_factor(b, m);
    lemma_agree_times(x, y, power(b, n), p, q, power(b, m));
    lemma_factor_sum(b, n, m);
}

pub proof fn lemma_like_over(x: real, y: real, n: int, p: real, q: real, m: int, b: real)
    requires
        b >= 1real,
        0 <= n,
        0 <= m,
        q != 0real,
        like(x, y, b, n),
        like(p, q, b, m),
    ensures
        like(x / p, y / q, b, n + m),
{
    lemma_factor(b, n);
    lemma_factor(b, m);
    lemma_agree_over(x, y, power(b, n), p, q, power(b, m));
    lemma_factor_sum(b, n, m);
}

pub proof fn lemma_like_root(x: real, y: real, b: real, n: int)
    requires
        roots_exist(),
        b >= 1real,
        0 <= n,
        y >= 0real,
        like(x, y, b, n),
    ensures
        like(x.root(), y.root(), b, n),
{
    lemma_factor(b, n);
    lemma_agree_root(x, y, power(b, n));
}

/// The sum of the squares of a vector.
pub proof fn lemma_norm2_like<T: Number>(
    val: spec_fn(T) -> real,
    eps: real,
    b: real,
    v: Seq<T>,
    n: int,
)
    requires
        steady(val, eps, b),
        0 <= n <= v.len(),
    ensures
        like(
            val(running_dot(T::nought(), v, v, 0, n)),
            running_dot(0real, vals(val, v), vals(val, v), 0, n),
            b,
            n + 1,
        ),
        running_dot(0real, vals(val, v), vals(val, v), 0, n) >= 0real,
    decreases n,
{
    let w = vals(val, v);
    lemma_running_dot(0real, w, w, 0, n);
    assert(sum(0, |i: int| w[i] * w[i]) == 0real);
    lemma_sum_squares(w, n);
    if n > 0 {
        let i = n - 1;
        lemma_norm2_like(val, eps, b, v, i);
        let acc = running_dot(T::nought(), v, v, 0, i);
        let exact = running_dot(0real, w, w, 0, i);
        let x = val(v[i]);
        let p = v[i].times(v[i]);
        lemma_like_self(x * x, b);
        lemma_like_rounded(val(p), x * x, x * x, eps, b, 0);
        lemma_like_more(val(p), x * x, b, 1, n);
        lemma_square(x);
        lemma_agree_plus(val(acc), exact, val(p), x * x, power(b, n));
        lemma_like_rounded(
            val(acc.plus(p)),
            val(acc) + val(p),
            exact + x * x,
            eps,
            b,
            n,
        );
    } else {
        lemma_like_self(0real, b);
        lemma_like_more(0real, 0real, b, 0, 1);
    }
}

/// The reflector of a column, rounded, agrees with the exact reflector of the numbers of the column
/// up to the factors of `2 n + 8` operations, for columns of every length `n`.
pub proof fn law_reflector_rounded<T: Number>(
    val: spec_fn(T) -> real,
    eps: real,
    b: real,
    v: Seq<T>,
)
    requires
        roots_exist(),
        steady(val, eps, b),
        v.len() > 0,
    ensures
        ({
            let n = v.len() as int;
            let h = reflector(v);
            let e = reflector(vals(val, v));
            &&& h.tail.len() == n - 1
            &&& e.tail.len() == n - 1
            &&& like(val(h.tau), e.tau, b, 2 * n + 8)
            &&& like(val(h.beta), e.beta, b, n + 3)
            &&& forall|r: int|
                0 <= r < n - 1 ==> like(val(#[trigger] h.tail[r]), e.tail[r], b, n + 5)
        }),
{
    let n = v.len() as int;
    let w = vals(val, v);
    let h = reflector(v);
    let e = reflector(w);
    lemma_norm2_like(val, eps, b, v, n);
    let norm2 = running_dot(T::nought(), v, v, 0, n);
    let exact2 = running_dot(0real, w, w, 0, n);
    let norm = norm2.root();
    let root = exact2.root();
    lemma_root(exact2);
    lemma_root(val(norm2));
    lemma_like_root(val(norm2), exact2, b, n + 1);
    let computed = val(norm2).root();
    assert(abs(computed) == computed);
    lemma_like_rounded(val(norm), computed, root, eps, b, n + 1);
    // The sign.
    let v0 = val(v[0]);
    let below = v[0].below(T::nought());
    let (sign, sg) = if below {
        (T::unit(), 1real)
    } else {
        (T::unit().negated(), -1real)
    };
    assert(val(sign) == sg);
    let x = sign.times(norm);
    lemma_one(val(norm));
    lemma_one(root);
    assert(like(sg * val(norm), sg * root, b, n + 2)) by {
        if below {
        } else {
            lemma_agree_negated(val(norm), root, power(b, n + 2));
        }
    }
    lemma_like_rounded(val(x), sg * val(norm), sg * root, eps, b, n + 2);
    assert(like(val(h.beta), e.beta, b, n + 3));
    // The first entry of the reflector: two numbers of one sign.
    let u0 = v[0].minus(x);
    let exact0 = w[0] - sg * root;
    lemma_like_self(v0, b);
    lemma_like_more(v0, v0, b, 0, n + 3);
    lemma_agree_negated(val(x), sg * root, power(b, n + 3));
    lemma_agree_plus(v0, v0, -val(x), -(sg * root), power(b, n + 3));
    lemma_like_rounded(val(u0), v0 - val(x), exact0, eps, b, n + 3);
    assert(w[0] == v0);
    // The factor.
    lemma_factor(b, 2 * n + 8);
    if T::nought().below(norm2) {
        assert(root > 0real);
        assert(val(norm) != 0real);
        lemma_agree_negated(val(u0), exact0, power(b, n + 4));
        let q = u0.negated().over(norm);
        lemma_like_over(-val(u0), -exact0, n + 4, val(norm), root, n + 2, b);
        lemma_like_rounded(
            val(q),
            (-val(u0)) / val(norm),
            (-exact0) / root,
            eps,
            b,
            2 * n + 6,
        );
        let eq = (-exact0) / root;
        lemma_one(val(q));
        lemma_one(eq);
        assert(like(val(q) * sg, eq * sg, b, 2 * n + 7)) by {
            if below {
            } else {
                lemma_agree_negated(val(q), eq, power(b, 2 * n + 7));
            }
        }
        lemma_like_rounded(val(q.times(sign)), val(q) * sg, eq * sg, eps, b, 2 * n + 7);
        assert(like(val(h.tau), e.tau, b, 2 * n + 8));
    } else {
        lemma_agree_self(0real, power(b, 2 * n + 8));
    }
    // The tail.
    assert forall|r: int| 0 <= r < n - 1 implies like(
        val(#[trigger] h.tail[r]),
        e.tail[r],
        b,
        n + 5,
    ) by {
        let y = val(v[r + 1]);
        assert(w[r + 1] == y);
        lemma_like_self(y, b);
        if u0.same(T::nought()) {
            assert(exact0 == 0real);
            lemma_like_more(y, y, b, 0, n + 5);
        } else {
            assert(exact0 != 0real);
            lemma_like_over(y, y, 0, val(u0), exact0, n + 4, b);
            lemma_like_rounded(
                val(v[r + 1].over(u0)),
                y / val(u0),
                y / exact0,
                eps,
                b,
                n + 4,
            );
        }
    }
}

/// The size of what a reflection with the tail `w` and the factor `t` adds to entry `r` of `x`:
/// with the absolute values of all numbers.
pub open spec fn reach<T>(val: spec_fn(T) -> real, x: Seq<T>, w: Seq<T>, t: T, r: int) -> real {
    let d = abs(val(x[0])) + inner(sizes(val, w), sizes(val, x.skip(1)));
    let wr = if r == 0 {
        1real
    } else {
        abs(val(w[r - 1]))
    };
    abs(val(x[r])) + (abs(val(t)) * d) * wr
}

/// The overlap of a vector and a reflector.
proof fn lemma_overlap_held<T: Number>(
    val: spec_fn(T) -> real,
    eps: real,
    lanes: bool,
    x: Seq<T>,
    w: Seq<T>,
)
    requires
        accurate(val, eps),
        0real <= eps,
        x.len() == w.len() + 1,
    ensures
        held(
            val(overlap(lanes, x, w)),
            val(x[0]) + inner(vals(val, w), vals(val, x.skip(1))),
            abs(val(x[0])) + inner(sizes(val, w), sizes(val, x.skip(1))),
            grown(eps, w.len() as int + 4),
        ),
{
    let n = w.len() as int;
    let y = x.skip(1);
    let x0 = val(x[0]);
    let (vw, vy, sw, sy) = (vals(val, w), vals(val, y), sizes(val, w), sizes(val, y));
    lemma_grown(eps, n + 3);
    if lanes {
        law_lane_dot_rounded(val, eps, y, w);
        lemma_inner_comm(vw, vy);
        lemma_inner_comm(sw, sy);
        lemma_held_exact(x0, grown(eps, n + 3));
        lemma_held_plus(
            x0,
            x0,
            abs(x0),
            val(lane_dot(y, w)),
            inner(vy, vw),
            inner(sy, sw),
            val(overlap(lanes, x, w)),
            grown(eps, n + 3),
            eps,
        );
    } else {
        lemma_grown(eps, 1);
        lemma_held_exact(x0, grown(eps, 1));
        lemma_running_held(val, eps, x[0], x0, abs(x0), 1, w, y, 0, n);
        lemma_running_dot(x0, vw, vy, 0, n);
        lemma_running_dot(abs(x0), sw, sy, 0, n);
        assert(sum(0, |i: int| vw[i] * vy[i]) == 0real);
        assert(sum(0, |i: int| sw[i] * sy[i]) == 0real);
        lemma_grown_order(eps, 1 + n, n + 4);
        lemma_held_more(
            val(overlap(lanes, x, w)),
            x0 + inner(vw, vy),
            abs(x0) + inner(sw, sy),
            grown(eps, 1 + n),
            grown(eps, n + 4),
        );
    }
}

/// A rounded reflection is the exact reflection of the numbers by the numbers of the reflector, up
/// to `(1 + eps)^(n + 8) - 1` of the same with absolute values, for vectors of every length.
pub proof fn law_reflected_rounded<T: Number>(
    val: spec_fn(T) -> real,
    eps: real,
    lanes: bool,
    x: Seq<T>,
    w: Seq<T>,
    t: T,
    r: int,
)
    requires
        accurate(val, eps),
        0real <= eps,
        x.len() == w.len() + 1,
        0 <= r < x.len(),
    ensures
        reflected(lanes, x, w, t).len() == x.len(),
        held(
            val(reflected(lanes, x, w, t)[r]),
            mirror(vals(val, x), padded(0, vals(val, w)), val(t))[r],
            reach(val, x, w, t, r),
            grown(eps, w.len() as int + 8),
        ),
{
    let n = w.len() as int;
    let (vx, vw) = (vals(val, x), vals(val, w));
    let p = padded(0, vw);
    let y = x.skip(1);
    let tv = val(t);
    lemma_reflected_len(lanes, x, w, t);
    lemma_overlap_held(val, eps, lanes, x, w);
    lemma_inner_padded(0, vw, vx);
    assert(vx.skip(0).skip(1) =~= vals(val, y));
    let dot = overlap(lanes, x, w);
    let exact = val(x[0]) + inner(vw, vals(val, y));
    let size = abs(val(x[0])) + inner(sizes(val, w), sizes(val, y));
    assert(inner(p, vx) == exact);
    let e4 = grown(eps, n + 4);
    lemma_grown(eps, n + 4);
    lemma_grown(eps, n + 5);
    lemma_grown(eps, n + 6);
    lemma_grown(eps, n + 7);
    let pr = p[r];
    let wr = if r == 0 {
        1real
    } else {
        abs(val(w[r - 1]))
    };
    assert(abs(pr) == wr);
    let xr = val(x[r]);
    // The exact entry.
    let te = tv * exact;
    let ts = abs(tv) * size;
    lemma_comm(te, pr);
    assert(mirror(vx, p, tv)[r] == xr - te * pr);
    lemma_comm(ts, wr);
    if dot.same(T::nought()) {
        // Nothing is taken off, and what should be is small.
        assert(val(dot) == 0real);
        lemma_held_scaled(0real, exact, size, e4, tv);
        lemma_zero(tv);
        lemma_held_scaled(0real, te, ts, e4, pr);
        lemma_zero(pr);
        lemma_held_exact(xr, e4);
        lemma_zero(eps);
        lemma_held_minus(
            xr,
            xr,
            abs(xr),
            0real,
            pr * te,
            wr * ts,
            xr,
            e4,
            0real,
        );
        lemma_one(1real + e4);
        assert((1real + e4) * (1real + 0real) == 1real + e4);
        lemma_grown_order(eps, n + 4, n + 8);
        lemma_held_more(xr, xr - te * pr, abs(xr) + ts * wr, e4, grown(eps, n + 8));
    } else {
        let f = t.times(dot);
        lemma_held_times(val(dot), exact, size, e4, tv, val(f), eps);
        let e5 = grown(eps, n + 5);
        let fv = val(f);
        assert(held(fv, te, ts, e5));
        if r == 0 {
            lemma_one(te);
            lemma_one(ts);
            lemma_held_exact(xr, e5);
            lemma_held_minus(xr, xr, abs(xr), fv, te, ts, val(x[0].minus(f)), e5, eps);
            lemma_grown_order(eps, n + 6, n + 8);
            lemma_held_more(
                val(x[0].minus(f)),
                xr - te * pr,
                abs(xr) + ts * wr,
                grown(eps, n + 6),
                grown(eps, n + 8),
            );
        } else {
            let i = r - 1;
            let out = sub_scaled(lanes, y, w, f)[i];
            assert(reflected(lanes, x, w, t)[r] == out);
            let wi = val(w[i]);
            let fused = lanes && i < 8 * (y.len() / 8) as int;
            if fused {
                lemma_held_scaled(fv, te, ts, e5, wi);
                lemma_held_exact(xr, e5);
                lemma_negate(fv, wi);
                lemma_comm(fv, wi);
                lemma_held_minus(
                    xr,
                    xr,
                    abs(xr),
                    wi * fv,
                    wi * te,
                    abs(wi) * ts,
                    val(out),
                    e5,
                    eps,
                );
                lemma_grown_order(eps, n + 6, n + 8);
                lemma_held_more(
                    val(out),
                    xr - te * pr,
                    abs(xr) + ts * wr,
                    grown(eps, n + 6),
                    grown(eps, n + 8),
                );
            } else {
                let q = f.times(w[i]);
                lemma_comm(fv, wi);
                lemma_held_times(fv, te, ts, e5, wi, val(q), eps);
                let e6 = grown(eps, n + 6);
                lemma_held_exact(xr, e6);
                lemma_held_minus(
                    xr,
                    xr,
                    abs(xr),
                    val(q),
                    wi * te,
                    abs(wi) * ts,
                    val(out),
                    e6,
                    eps,
                );
                lemma_grown_order(eps, n + 7, n + 8);
                lemma_held_more(
                    val(out),
                    xr - te * pr,
                    abs(xr) + ts * wr,
                    grown(eps, n + 7),
                    grown(eps, n + 8),
                );
            }
        }
    }
}

/// The entries of `y` from `i` on are those of `x` reflected with the tail `w` and the factor `t`,
/// as far as rounding allows, and the others are those of `x`.
pub open spec fn reflects_near<T: Number>(
    val: spec_fn(T) -> real,
    eps: real,
    x: Seq<T>,
    i: int,
    w: Seq<T>,
    t: T,
    y: Seq<T>,
) -> bool {
    &&& y.len() == x.len()
    &&& forall|r: int| 0 <= r < i ==> #[trigger] y[r] == x[r]
    &&& forall|r: int|
        i <= r < x.len() ==> held(
            val(#[trigger] y[r]),
            mirror(vals(val, x.skip(i)), padded(0, vals(val, w)), val(t))[r - i],
            reach(val, x.skip(i), w, t, r - i),
            grown(eps, w.len() as int + 8),
        )
}

/// A reflection from entry `i` on, or none where the factor is 0.
proof fn lemma_reflects_near<T: Number>(
    val: spec_fn(T) -> real,
    eps: real,
    lanes: bool,
    x: Seq<T>,
    i: int,
    w: Seq<T>,
    t: T,
)
    requires
        accurate(val, eps),
        0real <= eps,
        0 <= i,
        x.len() == i + 1 + w.len(),
    ensures
        reflects_near(
            val,
            eps,
            x,
            i,
            w,
            t,
            if t.same(T::nought()) {
                x
            } else {
                reflected_below(lanes, x, i, w, t)
            },
        ),
{
    let z = x.skip(i);
    let y = if t.same(T::nought()) {
        x
    } else {
        reflected_below(lanes, x, i, w, t)
    };
    lemma_reflected_len(lanes, z, w, t);
    assert forall|r: int| i <= r < x.len() implies held(
        val(#[trigger] y[r]),
        mirror(vals(val, z), padded(0, vals(val, w)), val(t))[r - i],
        reach(val, z, w, t, r - i),
        grown(eps, w.len() as int + 8),
    ) by {
        if t.same(T::nought()) {
            let n = w.len() as int + 8;
            lemma_grown(eps, n);
            let p = padded(0, vals(val, w));
            let d = inner(p, vals(val, z));
            let xr = val(z[r - i]);
            lemma_zero(d);
            lemma_zero(p[r - i]);
            assert(mirror(vals(val, z), p, val(t))[r - i] == xr);
            let size = abs(val(z[0])) + inner(sizes(val, w), sizes(val, z.skip(1)));
            lemma_zero(size);
            let wr = if r - i == 0 {
                1real
            } else {
                abs(val(w[r - i - 1]))
            };
            lemma_zero(wr);
            lemma_held_exact(xr, grown(eps, n));
        } else {
            law_reflected_rounded(val, eps, lanes, z, w, t, r - i);
            assert(y[r] == reflected(lanes, z, w, t)[r - i]);
        }
    }
}

/// Step `i` of the R pass, rounded. The column of the step agrees with what the exact reflector of
/// its numbers makes of it: the new diagonal entry, and the tail and the factor that are kept. The
/// columns before it stay, and those behind it are reflected with that tail and that factor, as far
/// as rounding allows. So it is in every step, for matrices of every shape.
pub proof fn law_house_rounded<T: Number>(
    val: spec_fn(T) -> real,
    eps: real,
    b: real,
    lanes: bool,
    cols: Seq<Seq<T>>,
    m: int,
    i: int,
)
    requires
        roots_exist(),
        steady(val, eps, b),
        tall(cols, m),
        0 <= i < lesser(m, cols.len() as int),
    ensures
        ({
            let before = house(lanes, cols, i);
            let after = house(lanes, cols, i + 1);
            let tail = after[i].skip(i + 1);
            let tau = house_taus(lanes, cols, i + 1)[i];
            let e = reflector(vals(val, before[i].skip(i)));
            &&& after.len() == cols.len()
            &&& forall|j: int| 0 <= j < i ==> #[trigger] after[j] == before[j]
            &&& after[i].len() == m
            &&& forall|r: int| 0 <= r < i ==> #[trigger] after[i][r] == before[i][r]
            &&& like(val(after[i][i]), e.beta, b, m - i + 3)
            &&& like(val(tau), e.tau, b, 2 * (m - i) + 8)
            &&& forall|r: int|
                0 <= r < m - i - 1 ==> like(val(#[trigger] tail[r]), e.tail[r], b, m - i + 5)
            &&& forall|j: int|
                i < j < cols.len() ==> reflects_near(
                    val,
                    eps,
                    before[j],
                    i,
                    tail,
                    tau,
                    #[trigger] after[j],
                )
        }),
{
    let before = house(lanes, cols, i);
    let after = house(lanes, cols, i + 1);
    lemma_house_shape(lanes, cols, m, i);
    lemma_house_shape(lanes, cols, m, i + 1);
    let v = before[i].skip(i);
    let h = reflector(v);
    let tail = after[i].skip(i + 1);
    let tau = house_taus(lanes, cols, i + 1)[i];
    law_reflector_rounded(val, eps, b, v);
    assert(after[i] == cleared(before[i], i));
    assert(tail =~= h.tail);
    assert(tau == h.tau);
    assert forall|j: int| i < j < cols.len() implies reflects_near(
        val,
        eps,
        before[j],
        i,
        tail,
        tau,
        #[trigger] after[j],
    ) by {
        lemma_reflects_near(val, eps, lanes, before[j], i, tail, tau);
    }
}

/// Before the first step the columns are those of the matrix, in any arithmetic.
pub proof fn law_house_starts<T: Number>(lanes: bool, cols: Seq<Seq<T>>)
    ensures
        house(lanes, cols, 0) == cols,
{
}

/// `xs` leads from the unit vector along axis `c` to a column of Q: from each vector to the one
/// before it by the reflection of a step, as far as rounding allows.
pub open spec fn leads<T: Number>(
    val: spec_fn(T) -> real,
    eps: real,
    cols: Seq<Seq<T>>,
    taus: Seq<T>,
    m: int,
    k: int,
    c: int,
    xs: Seq<Seq<T>>,
) -> bool {
    &&& xs.len() == k + 1
    &&& xs[k].len() == m
    &&& forall|r: int|
        0 <= r < m ==> val(#[trigger] xs[k][r]) == if r == c {
            1real
        } else {
            0real
        }
    &&& forall|i: int|
        0 <= i < k ==> reflects_near(
            val,
            eps,
            xs[i + 1],
            i,
            cols[i].skip(i + 1),
            taus[i],
            #[trigger] xs[i],
        )
}

/// The vectors between `x` and what the last-first reflections make of it.
proof fn lemma_trail<T: Number>(
    val: spec_fn(T) -> real,
    eps: real,
    lanes: bool,
    cols: Seq<Seq<T>>,
    taus: Seq<T>,
    m: int,
    x: Seq<T>,
    steps: int,
) -> (xs: Seq<Seq<T>>)
    requires
        accurate(val, eps),
        0real <= eps,
        tall(cols, m),
        0 <= steps <= m,
        steps <= cols.len(),
        x.len() == m,
    ensures
        xs.len() == steps + 1,
        xs[steps] == x,
        xs[0] == unwound(lanes, cols, taus, x, steps),
        forall|i: int|
            0 <= i < steps ==> reflects_near(
                val,
                eps,
                xs[i + 1],
                i,
                cols[i].skip(i + 1),
                taus[i],
                #[trigger] xs[i],
            ),
    decreases steps,
{
    if steps <= 0 {
        seq![x]
    } else {
        let i = steps - 1;
        let w = cols[i].skip(i + 1);
        lemma_reflects_near(val, eps, lanes, x, i, w, taus[i]);
        let y = if taus[i].same(T::nought()) {
            x
        } else {
            reflected_below(lanes, x, i, w, taus[i])
        };
        let before = lemma_trail(val, eps, lanes, cols, taus, m, y, i);
        let xs = before.push(x);
        assert forall|j: int| 0 <= j < steps implies reflects_near(
            val,
            eps,
            xs[j + 1],
            j,
            cols[j].skip(j + 1),
            taus[j],
            #[trigger] xs[j],
        ) by {
            if j < i {
                assert(before[j] == xs[j]);
                assert(before[j + 1] == xs[j + 1]);
            }
        }
        xs
    }
}

/// The Q pass, rounded. Every column of Q is its axis, led through the reflections of the R pass,
/// the last one first, as far as rounding allows in each, and then with the sign changed where the
/// diagonal entry of the R pass is negative. So it is for matrices of every shape.
pub proof fn law_q_rounded<T: Number>(
    val: spec_fn(T) -> real,
    eps: real,
    lanes: bool,
    cols: Seq<Seq<T>>,
    m: int,
    c: int,
)
    requires
        accurate(val, eps),
        0real <= eps,
        tall(cols, m),
        0 <= c < lesser(m, cols.len() as int),
    ensures
        ({
            let k = lesser(m, cols.len() as int);
            let done = house(lanes, cols, k);
            let taus = house_taus(lanes, cols, k);
            let q = qr_q(lanes, cols, m);
            q.len() == k && q[c].len() == m && exists|xs: Seq<Seq<T>>|
                {
                    &&& #[trigger] leads(val, eps, done, taus, m, k, c, xs)
                    &&& forall|r: int|
                        0 <= r < m ==> val(#[trigger] q[c][r]) == if val(done[c][c]) < 0real {
                            -val(xs[0][r])
                        } else {
                            val(xs[0][r])
                        }
                }
        }),
{
    let k = lesser(m, cols.len() as int);
    let done = house(lanes, cols, k);
    let taus = house_taus(lanes, cols, k);
    lemma_house_shape(lanes, cols, m, k);
    let x = axis::<T>(m, c);
    let xs = lemma_trail(val, eps, lanes, done, taus, m, x, k);
    assert forall|i: int| 0 <= i <= k implies (#[trigger] xs[i]).len() == m by {
        lemma_trail_len(val, eps, done, taus, m, xs, k, i);
    }
    assert(leads(val, eps, done, taus, m, k, c, xs));
    let q = qr_q(lanes, cols, m);
    assert(q[c] == q_column(lanes, done, taus, m, k, c));
}

proof fn lemma_trail_len<T: Number>(
    val: spec_fn(T) -> real,
    eps: real,
    cols: Seq<Seq<T>>,
    taus: Seq<T>,
    m: int,
    xs: Seq<Seq<T>>,
    k: int,
    i: int,
)
    requires
        0 <= i <= k,
        xs.len() == k + 1,
        xs[k].len() == m,
        forall|j: int|
            0 <= j < k ==> reflects_near(
                val,
                eps,
                xs[j + 1],
                j,
                cols[j].skip(j + 1),
                taus[j],
                #[trigger] xs[j],
            ),
    ensures
        xs[i].len() == m,
    decreases k - i,
{
    if i < k {
        lemma_trail_len(val, eps, cols, taus, m, xs, k, i + 1);
        assert(reflects_near(val, eps, xs[i + 1], i, cols[i].skip(i + 1), taus[i], xs[i]));
    }
}

/// A vector that completes a basis, rounded: its axis, led through the reflections of the columns
/// `cols`, the last one first, as far as rounding allows in each.
pub proof fn law_completed_rounded<T: Number>(
    val: spec_fn(T) -> real,
    eps: real,
    lanes: bool,
    cols: Seq<Seq<T>>,
    n: int,
    i: int,
)
    requires
        accurate(val, eps),
        0real <= eps,
        tall(cols, n),
        0 <= n,
    ensures
        ({
            let k = lesser(n, cols.len() as int);
            let done = house(lanes, cols, k);
            let taus = house_taus(lanes, cols, k);
            exists|xs: Seq<Seq<T>>|
                {
                    &&& #[trigger] leads(val, eps, done, taus, n, k, i, xs)
                    &&& completed(lanes, cols, n, i) == xs[0]
                }
        }),
{
    let k = lesser(n, cols.len() as int);
    let done = house(lanes, cols, k);
    let taus = house_taus(lanes, cols, k);
    lemma_house_shape(lanes, cols, n, k);
    let xs = lemma_trail(val, eps, lanes, done, taus, n, axis::<T>(n, i), k);
    assert(leads(val, eps, done, taus, n, k, i, xs));
}

/// The triangular factor is read off the columns that the R pass leaves behind, in any arithmetic
/// with exact signs: zeros below the diagonal, and the row of a negative diagonal entry with its
/// signs changed.
pub proof fn law_r_rounded<T: Number>(
    val: spec_fn(T) -> real,
    eps: real,
    lanes: bool,
    cols: Seq<Seq<T>>,
    m: int,
    i: int,
    c: int,
)
    requires
        accurate(val, eps),
        0 <= i < lesser(m, cols.len() as int),
        0 <= c < cols.len(),
    ensures
        ({
            let done = house(lanes, cols, lesser(m, cols.len() as int));
            val(qr_r(lanes, cols, m, i, c)) == if c < i {
                0real
            } else if val(done[i][i]) < 0real {
                -val(done[c][i])
            } else {
                val(done[c][i])
            }
        }),
{
}

} // verus!
