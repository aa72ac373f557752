//! What rounding can do to the vector kernels: how far dot products and updates are from exact in
//! an arithmetic whose operations have a small relative error.

use crate::algebra::{
    lemma_assoc, lemma_comm, lemma_negate, lemma_not_negative, lemma_one, lemma_spread,
    lemma_spread_sub, lemma_zero,
};
use crate::error_laws::{
    abs, accurate, lemma_abs_times, lemma_times_order, power, within,
};
use crate::exact::{inner, lemma_lane_dot, lemma_sum_ext, lemma_wide_dot, sum};
use crate::grid::lemma_panel_bounds;
use crate::lanes::{
    lane_dot, lane_sum, lane_sums, rotated_first, rotated_second, running_dot, tree4, tree8,
    wide_dot, wide_lane_dot,
};
use crate::matmul::{column_of, product_entry, row_of};
use crate::scalar::Number;
use vstd::prelude::*;

verus! {

/// The numbers that a vector stands for.
pub open spec fn vals<T>(val: spec_fn(T) -> real, a: Seq<T>) -> Seq<real> {
    a.map_values(val)
}

/// Their absolute values.
pub open spec fn sizes<T>(val: spec_fn(T) -> real, a: Seq<T>) -> Seq<real> {
    a.map_values(|x: T| abs(val(x)))
}

/// `(1 + eps)^n - 1`: the relative error of `n` operations, one after the other.
pub open spec fn grown(eps: real, n: int) -> real {
    power(1real + eps, n) - 1real
}

/// `x` is `exact` up to `e` times `size`, which is at least the absolute value of `exact`.
pub open spec fn held(x: real, exact: real, size: real, e: real) -> bool {
    within(x, exact, e * size) && abs(exact) <= size
}

pub proof fn lemma_grown(eps: real, n: int)
    requires
        0real <= eps,
    ensures
        grown(eps, n) >= 0real,
        n >= 0 ==> grown(eps, n + 1) == (1real + grown(eps, n)) * (1real + eps) - 1real,
        n >= 0 ==> grown(eps, n) <= grown(eps, n + 1),
        n >= 1 ==> eps <= grown(eps, n),
    decreases n,
{
    if n > 0 {
        lemma_grown(eps, n - 1);
    }
    let p = power(1real + eps, n);
    lemma_spread(p, 1real, eps);
    lemma_one(p);
    lemma_not_negative(p, eps);
    if n == 1 {
        lemma_one(1real + eps);
        assert(power(1real + eps, 0) == 1real);
    }
}

pub proof fn lemma_grown_order(eps: real, i: int, j: int)
    requires
        0real <= eps,
        0 <= i <= j,
    ensures
        grown(eps, i) <= grown(eps, j),
    decreases j - i,
{
    if i < j {
        lemma_grown_order(eps, i, j - 1);
        lemma_grown(eps, j - 1);
    }
}

pub proof fn lemma_held_more(x: real, exact: real, size: real, e: real, e2: real)
    requires
        held(x, exact, size, e),
        e <= e2,
    ensures
        held(x, exact, size, e2),
{
    lemma_comm(e, size);
    lemma_comm(e2, size);
    lemma_times_order(size, e, e2);
}

/// A number that is exact.
pub proof fn lemma_held_exact(x: real, e: real)
    requires
        e >= 0real,
    ensures
        held(x, x, abs(x), e),
{
    lemma_not_negative(e, abs(x));
}

/// A rounded sum.
pub proof fn lemma_held_plus(
    x: real,
    a: real,
    s: real,
    y: real,
    b: real,
    r: real,
    z: real,
    e: real,
    eps: real,
)
    requires
        0real <= e,
        0real <= eps,
        held(x, a, s, e),
        held(y, b, r, e),
        within(z, x + y, eps * abs(x + y)),
    ensures
        held(z, a + b, s + r, (1real + e) * (1real + eps) - 1real),
{
    let t = s + r;
    lemma_spread(e, s, r);
    let et = e * t;
    assert(abs(x + y - (a + b)) <= et);
    assert(abs(x + y) <= t + et);
    lemma_times_order(eps, abs(x + y), t + et);
    lemma_spread(eps, t, et);
    lemma_assoc(eps, e, t);
    // e + eps + eps e = (1 + e) (1 + eps) - 1
    let c = (1real + e) * (1real + eps) - 1real;
    lemma_spread(1real + e, 1real, eps);
    lemma_one(1real + e);
    lemma_comm(1real + e, eps);
    lemma_spread(eps, 1real, e);
    lemma_one(eps);
    let ee = eps * e;
    assert(c == e + eps + ee);
    lemma_comm(c, t);
    lemma_spread(t, e + eps, ee);
    lemma_spread(t, e, eps);
    lemma_comm(t, e);
    lemma_comm(t, eps);
    lemma_comm(t, ee);
}

/// A rounded difference.
pub proof fn lemma_held_minus(
    x: real,
    a: real,
    s: real,
    y: real,
    b: real,
    r: real,
    z: real,
    e: real,
    eps: real,
)
    requires
        0real <= e,
        0real <= eps,
        held(x, a, s, e),
        held(y, b, r, e),
        within(z, x - y, eps * abs(x - y)),
    ensures
        held(z, a - b, s + r, (1real + e) * (1real + eps) - 1real),
{
    lemma_held_plus(x, a, s, -y, -b, r, z, e, eps);
}

/// An exact multiple.
pub proof fn lemma_held_scaled(x: real, a: real, s: real, e: real, t: real)
    requires
        held(x, a, s, e),
    ensures
        held(t * x, t * a, abs(t) * s, e),
{
    lemma_spread_sub(t, x, a);
    lemma_abs_times(t, x - a);
    lemma_abs_times(t, a);
    lemma_times_order(abs(t), abs(x - a), e * s);
    lemma_times_order(abs(t), abs(a), s);
    lemma_assoc(abs(t), e, s);
    lemma_comm(abs(t), e);
    lemma_assoc(e, abs(t), s);
}

/// A rounded multiple.
pub proof fn lemma_held_times(x: real, a: real, s: real, e: real, t: real, z: real, eps: real)
    requires
        0real <= e,
        0real <= eps,
        held(x, a, s, e),
        within(z, t * x, eps * abs(t * x)),
    ensures
        held(z, t * a, abs(t) * s, (1real + e) * (1real + eps) - 1real),
{
    lemma_held_scaled(x, a, s, e, t);
    lemma_zero(e);
    lemma_held_plus(t * x, t * a, abs(t) * s, 0real, 0real, 0real, z, e, eps);
}

/// A running dot product that begins with a number that is held.
pub proof fn lemma_running_held<T: Number>(
    val: spec_fn(T) -> real,
    eps: real,
    start: T,
    exact: real,
    size: real,
    k: int,
    a: Seq<T>,
    b: Seq<T>,
    from: int,
    to: int,
)
    requires
        accurate(val, eps),
        0real <= eps,
        0 <= from <= to,
        to <= a.len(),
        to <= b.len(),
        1 <= k,
        held(val(start), exact, size, grown(eps, k)),
    ensures
        held(
            val(running_dot(start, a, b, from, to)),
            running_dot(exact, vals(val, a), vals(val, b), from, to),
            running_dot(size, sizes(val, a), sizes(val, b), from, to),
            grown(eps, k + (to - from)),
        ),
    decreases to - from,
{
    if from < to {
        let i = to - 1;
        lemma_running_held(val, eps, start, exact, size, k, a, b, from, i);
        let n = k + (i - from);
        lemma_grown(eps, n);
        let acc = running_dot(start, a, b, from, i);
        let p = a[i].times(b[i]);
        let (x, y) = (val(a[i]), val(b[i]));
        assert(held(val(p), x * y, abs(x * y), eps));
        lemma_held_more(val(p), x * y, abs(x * y), eps, grown(eps, n));
        lemma_abs_times(x, y);
        lemma_held_plus(
            val(acc),
            running_dot(exact, vals(val, a), vals(val, b), from, i),
            running_dot(size, sizes(val, a), sizes(val, b), from, i),
            val(p),
            x * y,
            abs(x * y),
            val(acc.plus(p)),
            grown(eps, n),
            eps,
        );
    }
}

/// A lane of a dot product.
proof fn lemma_lane_held<T: Number>(
    val: spec_fn(T) -> real,
    eps: real,
    a: Seq<T>,
    b: Seq<T>,
    width: int,
    lane: int,
    blocks: nat,
)
    requires
        accurate(val, eps),
        0real <= eps,
        0 <= lane < width,
        width * blocks <= a.len(),
        a.len() <= b.len(),
    ensures
        held(
            val(lane_sum(a, b, width, lane, blocks)),
            lane_sum(vals(val, a), vals(val, b), width, lane, blocks),
            lane_sum(sizes(val, a), sizes(val, b), width, lane, blocks),
            grown(eps, blocks as int),
        ),
    decreases blocks,
{
    if blocks > 0 {
        let before = (blocks - 1) as nat;
        assert(width * before <= width * blocks && width * blocks == width * before + width)
            by (nonlinear_arith)
            requires
                blocks == before + 1,
                width > 0,
        ;
        lemma_lane_held(val, eps, a, b, width, lane, before);
        lemma_grown(eps, before as int);
        let i = width * before + lane;
        assert(0 <= width * before) by (nonlinear_arith)
            requires
                width > 0,
                0 <= before,
        ;
        let acc = lane_sum(a, b, width, lane, before);
        let (x, y) = (val(a[i]), val(b[i]));
        lemma_abs_times(x, y);
        lemma_held_exact(x * y, grown(eps, before as int));
        lemma_held_plus(
            x * y,
            x * y,
            abs(x * y),
            val(acc),
            lane_sum(vals(val, a), vals(val, b), width, lane, before),
            lane_sum(sizes(val, a), sizes(val, b), width, lane, before),
            val(a[i].fused(b[i], acc)),
            grown(eps, before as int),
            eps,
        );
    } else {
        lemma_zero(grown(eps, 0));
    }
}

/// The sum of two numbers that are held.
proof fn lemma_held_add<T: Number>(
    val: spec_fn(T) -> real,
    eps: real,
    n: int,
    x: T,
    a: real,
    s: real,
    y: T,
    b: real,
    r: real,
)
    requires
        accurate(val, eps),
        0real <= eps,
        0 <= n,
        held(val(x), a, s, grown(eps, n)),
        held(val(y), b, r, grown(eps, n)),
    ensures
        held(val(x.plus(y)), a + b, s + r, grown(eps, n + 1)),
{
    lemma_grown(eps, n);
    lemma_held_plus(val(x), a, s, val(y), b, r, val(x.plus(y)), grown(eps, n), eps);
}

/// The dot product in eight lanes is exact, up to `(1 + eps)^(n + 3) - 1` of the sum of the
/// absolute values of the products, for vectors of every length `n`.
pub proof fn law_lane_dot_rounded<T: Number>(
    val: spec_fn(T) -> real,
    eps: real,
    a: Seq<T>,
    b: Seq<T>,
)
    requires
        accurate(val, eps),
        0real <= eps,
        a.len() == b.len(),
    ensures
        held(
            val(lane_dot(a, b)),
            inner(vals(val, a), vals(val, b)),
            inner(sizes(val, a), sizes(val, b)),
            grown(eps, a.len() as int + 3),
        ),
{
    let blocks = (a.len() / 8) as nat;
    let n = blocks as int;
    let (va, vb, sa, sb) = (vals(val, a), vals(val, b), sizes(val, a), sizes(val, b));
    let (l, v, s) = (lane_sums(a, b, 8, blocks), lane_sums(va, vb, 8, blocks), lane_sums(
        sa,
        sb,
        8,
        blocks,
    ));
    assert forall|i: int| 0 <= i < 8 implies held(
        val(#[trigger] l[i]),
        v[i],
        s[i],
        grown(eps, n),
    ) by {
        lemma_lane_held(val, eps, a, b, 8, i, blocks);
    }
    assert(held(val(l[0]), v[0], s[0], grown(eps, n)));
    assert(held(val(l[1]), v[1], s[1], grown(eps, n)));
    assert(held(val(l[2]), v[2], s[2], grown(eps, n)));
    assert(held(val(l[3]), v[3], s[3], grown(eps, n)));
    assert(held(val(l[4]), v[4], s[4], grown(eps, n)));
    assert(held(val(l[5]), v[5], s[5], grown(eps, n)));
    assert(held(val(l[6]), v[6], s[6], grown(eps, n)));
    assert(held(val(l[7]), v[7], s[7], grown(eps, n)));
    lemma_held_add(val, eps, n, l[0], v[0], s[0], l[4], v[4], s[4]);
    lemma_held_add(val, eps, n, l[2], v[2], s[2], l[6], v[6], s[6]);
    lemma_held_add(val, eps, n, l[1], v[1], s[1], l[5], v[5], s[5]);
    lemma_held_add(val, eps, n, l[3], v[3], s[3], l[7], v[7], s[7]);
    let (x, y) = (l[0].plus(l[4]), l[2].plus(l[6]));
    let (p, q) = (l[1].plus(l[5]), l[3].plus(l[7]));
    lemma_held_add(val, eps, n + 1, x, v[0] + v[4], s[0] + s[4], y, v[2] + v[6], s[2] + s[6]);
    lemma_held_add(val, eps, n + 1, p, v[1] + v[5], s[1] + s[5], q, v[3] + v[7], s[3] + s[7]);
    lemma_held_add(
        val,
        eps,
        n + 2,
        x.plus(y),
        v[0] + v[4] + (v[2] + v[6]),
        s[0] + s[4] + (s[2] + s[6]),
        p.plus(q),
        v[1] + v[5] + (v[3] + v[7]),
        s[1] + s[5] + (s[3] + s[7]),
    );
    assert(held(val(tree8(l)), tree8(v), tree8(s), grown(eps, n + 3)));
    let len = a.len() as int;
    lemma_running_held(val, eps, tree8(l), tree8(v), tree8(s), n + 3, a, b, 8 * n, len);
    lemma_lane_dot(va, vb);
    lemma_lane_dot(sa, sb);
    lemma_grown_order(eps, n + 3 + (len - 8 * n), len + 3);
    lemma_held_more(
        val(lane_dot(a, b)),
        inner(va, vb),
        inner(sa, sb),
        grown(eps, n + 3 + (len - 8 * n)),
        grown(eps, len + 3),
    );
}

/// The dot product of double width is exact, up to `(1 + eps)^(n + 3) - 1` of the sum of the
/// absolute values of the products, with lanes and without, for vectors of every length `n`.
pub proof fn law_wide_dot_rounded<T: Number>(
    val: spec_fn(T) -> real,
    eps: real,
    lanes: bool,
    a: Seq<T>,
    b: Seq<T>,
)
    requires
        accurate(val, eps),
        0real <= eps,
        a.len() == b.len(),
    ensures
        held(
            val(wide_dot(lanes, a, b)),
            inner(vals(val, a), vals(val, b)),
            inner(sizes(val, a), sizes(val, b)),
            grown(eps, a.len() as int + 3),
        ),
{
    let (va, vb, sa, sb) = (vals(val, a), vals(val, b), sizes(val, a), sizes(val, b));
    let len = a.len() as int;
    lemma_wide_dot(lanes, va, vb);
    lemma_wide_dot(lanes, sa, sb);
    if lanes {
        let blocks = (a.len() / 4) as nat;
        let n = blocks as int;
        let (l, v, s) = (lane_sums(a, b, 4, blocks), lane_sums(va, vb, 4, blocks), lane_sums(
            sa,
            sb,
            4,
            blocks,
        ));
        lemma_lane_held(val, eps, a, b, 4, 0, blocks);
        lemma_lane_held(val, eps, a, b, 4, 1, blocks);
        lemma_lane_held(val, eps, a, b, 4, 2, blocks);
        lemma_lane_held(val, eps, a, b, 4, 3, blocks);
        lemma_held_add(val, eps, n, l[0], v[0], s[0], l[2], v[2], s[2]);
        lemma_held_add(val, eps, n, l[1], v[1], s[1], l[3], v[3], s[3]);
        lemma_held_add(
            val,
            eps,
            n + 1,
            l[0].plus(l[2]),
            v[0] + v[2],
            s[0] + s[2],
            l[1].plus(l[3]),
            v[1] + v[3],
            s[1] + s[3],
        );
        assert(held(val(tree4(l)), tree4(v), tree4(s), grown(eps, n + 2)));
        lemma_running_held(val, eps, tree4(l), tree4(v), tree4(s), n + 2, a, b, 4 * n, len);
        lemma_grown_order(eps, n + 2 + (len - 4 * n), len + 3);
        lemma_held_more(
            val(wide_lane_dot(a, b)),
            inner(va, vb),
            inner(sa, sb),
            grown(eps, n + 2 + (len - 4 * n)),
            grown(eps, len + 3),
        );
    } else {
        lemma_grown(eps, 1);
        lemma_held_exact(0real, grown(eps, 1));
        lemma_running_held(val, eps, T::nought(), 0real, 0real, 1, a, b, 0, len);
        lemma_grown_order(eps, 1 + len, len + 3);
        lemma_held_more(
            val(wide_dot(lanes, a, b)),
            inner(va, vb),
            inner(sa, sb),
            grown(eps, 1 + len),
            grown(eps, len + 3),
        );
    }
}

/// An entry of the product of two matrices is exact, up to `(1 + eps)^(kk + 3) - 1` of the sum of
/// the absolute values of the products along row and column, for matrices of every shape.
pub proof fn law_matmul_rounded<T: Number>(
    val: spec_fn(T) -> real,
    eps: real,
    a: Seq<T>,
    rows: int,
    kk: int,
    b: Seq<T>,
    k: int,
    j: int,
    i: int,
)
    requires
        accurate(val, eps),
        0real <= eps,
        0 <= kk,
        0 <= j < rows,
        0 <= i < k,
        a.len() >= rows * kk,
    ensures
        held(
            val(product_entry(a, kk, b, k, j, i)),
            sum(kk, |c: int| val(a[j * kk + c]) * val(b[c * k + i])),
            sum(kk, |c: int| abs(val(a[j * kk + c])) * abs(val(b[c * k + i]))),
            grown(eps, kk + 3),
        ),
{
    lemma_panel_bounds(kk, rows, j);
    let (x, y) = (row_of(a, kk, j), column_of(b, kk, k, i));
    law_lane_dot_rounded(val, eps, x, y);
    lemma_sum_ext(
        kk,
        |c: int| vals(val, x)[c] * vals(val, y)[c],
        |c: int| val(a[j * kk + c]) * val(b[c * k + i]),
    );
    lemma_sum_ext(
        kk,
        |c: int| sizes(val, x)[c] * sizes(val, y)[c],
        |c: int| abs(val(a[j * kk + c])) * abs(val(b[c * k + i])),
    );
}

/// A rotated pair is exact, up to `(1 + eps)^2 - 1` of the absolute values of the two products that
/// make an entry.
pub proof fn law_rotated_rounded<T: Number>(
    val: spec_fn(T) -> real,
    eps: real,
    x: Seq<T>,
    y: Seq<T>,
    c: T,
    s: T,
    whole: int,
    i: int,
)
    requires
        accurate(val, eps),
        0real <= eps,
        x.len() == y.len(),
        0 <= i < x.len(),
    ensures
        ({
            let (a, b, cv, sv) = (val(x[i]), val(y[i]), val(c), val(s));
            &&& rotated_first(x, y, c, s, whole).len() == x.len()
            &&& rotated_second(x, y, c, s, whole).len() == x.len()
            &&& held(
                val(rotated_first(x, y, c, s, whole)[i]),
                cv * a + sv * b,
                abs(cv) * abs(a) + abs(sv) * abs(b),
                grown(eps, 2),
            )
            &&& held(
                val(rotated_second(x, y, c, s, whole)[i]),
                cv * b - sv * a,
                abs(cv) * abs(b) + abs(sv) * abs(a),
                grown(eps, 2),
            )
        }),
{
    let (a, b, cv, sv) = (val(x[i]), val(y[i]), val(c), val(s));
    lemma_grown(eps, 1);
    lemma_pair_held(val, eps, c, x[i], s, y[i]);
    lemma_pair_held(val, eps, c, y[i], s, x[i]);
    lemma_abs_times(sv, b);
    lemma_abs_times(sv, a);
    lemma_held_exact(sv * b, grown(eps, 1));
    lemma_held_exact(-(sv * a), grown(eps, 1));
    lemma_negate(sv, a);
    if i < whole {
        lemma_held_plus(
            sv * b,
            sv * b,
            abs(sv) * abs(b),
            val(c.times(x[i])),
            cv * a,
            abs(cv) * abs(a),
            val(s.fused(y[i], c.times(x[i]))),
            grown(eps, 1),
            eps,
        );
        lemma_held_plus(
            -(sv * a),
            -(sv * a),
            abs(sv) * abs(a),
            val(c.times(y[i])),
            cv * b,
            abs(cv) * abs(b),
            val(s.negated().fused(x[i], c.times(y[i]))),
            grown(eps, 1),
            eps,
        );
    } else {
        lemma_held_plus(
            val(c.times(x[i])),
            cv * a,
            abs(cv) * abs(a),
            val(s.times(y[i])),
            sv * b,
            abs(sv) * abs(b),
            val(c.times(x[i]).plus(s.times(y[i]))),
            grown(eps, 1),
            eps,
        );
        lemma_held_minus(
            val(c.times(y[i])),
            cv * b,
            abs(cv) * abs(b),
            val(s.times(x[i])),
            sv * a,
            abs(sv) * abs(a),
            val(c.times(y[i]).minus(s.times(x[i]))),
            grown(eps, 1),
            eps,
        );
    }
}

/// Two rounded products.
proof fn lemma_pair_held<T: Number>(
    val: spec_fn(T) -> real,
    eps: real,
    c: T,
    x: T,
    s: T,
    y: T,
)
    requires
        accurate(val, eps),
        0real <= eps,
    ensures
        held(val(c.times(x)), val(c) * val(x), abs(val(c)) * abs(val(x)), grown(eps, 1)),
        held(val(s.times(y)), val(s) * val(y), abs(val(s)) * abs(val(y)), grown(eps, 1)),
{
    lemma_grown(eps, 1);
    lemma_abs_times(val(c), val(x));
    lemma_abs_times(val(s), val(y));
    assert(held(val(c.times(x)), val(c) * val(x), abs(val(c) * val(x)), eps));
    lemma_held_more(val(c.times(x)), val(c) * val(x), abs(val(c) * val(x)), eps, grown(eps, 1));
    assert(held(val(s.times(y)), val(s) * val(y), abs(val(s) * val(y)), eps));
    lemma_held_more(val(s.times(y)), val(s) * val(y), abs(val(s) * val(y)), eps, grown(eps, 1));
}

} // verus!
