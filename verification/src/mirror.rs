//! Reflections of vectors over the mathematical numbers.

use crate::algebra::{
    lemma_assoc, lemma_comm, lemma_inverse, lemma_negate, lemma_one, lemma_over, lemma_regroup,
    lemma_spread, lemma_spread_scaled, lemma_spread_sub, lemma_zero,
};
use crate::exact::{
    combined, dot, inner, lemma_inner_combined, lemma_inner_comm, lemma_lane_dot, lemma_root,
    lemma_running_dot, lemma_sum_ext, lemma_sum_scale, lemma_sum_split, lemma_sum_squares,
    lemma_sum_zero, sum,
};
use crate::house::{overlap, reflected_below, reflector, sub_scaled};
use crate::lanes::running_dot;
use crate::scalar::{roots_exist, Number};
use vstd::prelude::*;

verus! {

/// The vector of a reflection that leaves the first `i` entries alone: zeros, 1, the tail.
pub open spec fn padded(i: int, w: Seq<real>) -> Seq<real> {
    Seq::new(
        (i + 1 + w.len()) as nat,
        |r: int|
            if r < i {
                0real
            } else if r == i {
                1real
            } else {
                w[r - i - 1]
            },
    )
}

/// `x - t (w . x) w`.
pub open spec fn mirror(x: Seq<real>, w: Seq<real>, t: real) -> Seq<real> {
    let d = inner(w, x);
    Seq::new(x.len(), |r: int| x[r] - t * d * w[r])
}

/// `w` and `t` make an orthogonal reflection, or none at all.
pub open spec fn is_mirror(w: Seq<real>, t: real) -> bool {
    t == 0real || t * inner(w, w) == 2real
}

/// A reflection as a combination.
pub proof fn lemma_mirror_combined(x: Seq<real>, w: Seq<real>, t: real)
    requires
        w.len() == x.len(),
    ensures
        mirror(x, w, t) == combined(x, -(t * inner(w, x)), w),
{
    let d = inner(w, x);
    let td = t * d;
    assert forall|r: int| 0 <= r < x.len() implies #[trigger] mirror(x, w, t)[r] == combined(
        x,
        -(t * d),
        w,
    )[r] by {
        lemma_negate(td, w[r]);
    }
    assert(mirror(x, w, t) =~= combined(x, -(t * d), w));
}

/// The scalar part of [`lemma_mirror_inner`].
proof fn lemma_mirror_inner_algebra(t: real, a: real, b: real, ww: real)
    requires
        t == 0real || t * ww == 2real,
    ensures
        (-(t * a)) * b + (-(t * b)) * (a + (-(t * a)) * ww) == 0real,
{
    let (p, q, tw) = (t * a, t * b, t * ww);
    let y = p * ww;
    lemma_negate(p, b);
    lemma_negate(p, ww);
    lemma_negate(q, a - y);
    lemma_spread_sub(q, a, y);
    // p b = q a
    lemma_assoc(t, a, b);
    lemma_assoc(t, b, a);
    // q y = (q a) tw
    lemma_assoc(a, t, ww);
    lemma_assoc(q, a, tw);
    if t == 0real {
        lemma_zero(a);
        lemma_zero(b);
        lemma_zero(ww);
        lemma_zero(y);
    } else {
        assert((q * a) * 2real == q * a + q * a);
    }
}

/// Reflections keep inner products.
pub proof fn lemma_mirror_inner(x: Seq<real>, y: Seq<real>, w: Seq<real>, t: real)
    requires
        w.len() == x.len(),
        w.len() == y.len(),
        is_mirror(w, t),
    ensures
        inner(mirror(x, w, t), mirror(y, w, t)) == inner(x, y),
{
    let a = inner(w, x);
    let b = inner(w, y);
    let ww = inner(w, w);
    let mx = mirror(x, w, t);
    let my = mirror(y, w, t);
    lemma_mirror_combined(x, w, t);
    lemma_mirror_combined(y, w, t);
    // <mx, my> = <mx, y> - t b <mx, w>
    lemma_inner_combined(mx, y, -(t * b), w);
    lemma_inner_comm(mx, y);
    lemma_inner_comm(mx, w);
    // <y, mx> = <y, x> - t a <y, w>
    lemma_inner_combined(y, x, -(t * a), w);
    lemma_inner_comm(y, x);
    lemma_inner_comm(y, w);
    // <w, mx> = a - t a <w, w>
    lemma_inner_combined(w, x, -(t * a), w);
    lemma_mirror_inner_algebra(t, a, b, ww);
}

/// A reflection undoes itself.
pub proof fn lemma_mirror_twice(x: Seq<real>, w: Seq<real>, t: real)
    requires
        w.len() == x.len(),
        is_mirror(w, t),
    ensures
        mirror(mirror(x, w, t), w, t) == x,
{
    let a = inner(w, x);
    let ww = inner(w, w);
    let mx = mirror(x, w, t);
    lemma_mirror_combined(x, w, t);
    lemma_inner_combined(w, x, -(t * a), w);
    let b = inner(w, mx);
    assert(t * a + t * b == 0real) by {
        let p = t * a;
        let y = p * ww;
        lemma_negate(p, ww);
        lemma_spread_sub(t, a, y);
        // t y = p (t ww)
        lemma_assoc(t, p, ww);
        lemma_assoc(p, t, ww);
        if t == 0real {
            lemma_zero(a);
            lemma_zero(b);
        } else {
            assert(p * 2real == p + p);
        }
    }
    assert forall|r: int| 0 <= r < x.len() implies #[trigger] mirror(mx, w, t)[r] == x[r] by {
        let wr = w[r];
        let xr = x[r];
        let (ta, tb) = (t * a, t * b);
        lemma_spread(wr, ta, tb);
        lemma_zero(wr);
    }
    assert(mirror(mx, w, t) =~= x);
}

/// Reflection is linear.
pub proof fn lemma_mirror_linear(x: Seq<real>, a: real, y: Seq<real>, w: Seq<real>, t: real)
    requires
        w.len() == x.len(),
        w.len() == y.len(),
    ensures
        mirror(combined(x, a, y), w, t) == combined(mirror(x, w, t), a, mirror(y, w, t)),
{
    lemma_inner_combined(w, x, a, y);
    let p = inner(w, x);
    let q = inner(w, y);
    let lhs = mirror(combined(x, a, y), w, t);
    let rhs = combined(mirror(x, w, t), a, mirror(y, w, t));
    assert forall|r: int| 0 <= r < x.len() implies #[trigger] lhs[r] == rhs[r] by {
        let (xr, yr, wr) = (x[r], y[r], w[r]);
        let (tp, tq) = (t * p, t * q);
        let z = tq * wr;
        lemma_spread_scaled(t, p, a, q);
        lemma_spread_scaled(wr, tp, a, tq);
        let whole = tp + a * tq;
        assert(t * (p + a * q) == whole);
        lemma_comm(whole, wr);
        lemma_comm(tp, wr);
        lemma_comm(tq, wr);
        lemma_spread_sub(a, yr, z);
        assert(lhs[r] == xr + a * yr - whole * wr);
        assert(rhs[r] == (xr - tp * wr) + a * (yr - z));
    }
    assert(lhs =~= rhs);
}

/// The inner product with a padded vector looks at the entries from `i` on only.
pub proof fn lemma_inner_padded(i: int, w: Seq<real>, x: Seq<real>)
    requires
        0 <= i,
        x.len() == i + 1 + w.len(),
    ensures
        inner(padded(i, w), x) == x[i] + inner(w, x.skip(i).skip(1)),
{
    let p = padded(i, w);
    let f = |r: int| p[r] * x[r];
    let n = w.len() as int;
    let y = x.skip(i).skip(1);
    assert forall|r: int| 0 <= r < i implies #[trigger] f(r) == 0real by {
        lemma_zero(x[r]);
    }
    lemma_sum_zero(i, f);
    assert(f(i) == x[i]) by {
        lemma_one(x[i]);
    }
    assert(sum(i + 1, f) == sum(i, f) + f(i));
    lemma_sum_split(n, i + 1, f);
    let g = |r: int| f(i + 1 + r);
    let h = |r: int| w[r] * y[r];
    lemma_sum_ext(n, g, h);
}

/// In exact arithmetic the kernel's column update is a reflection.
pub proof fn lemma_reflected_is_mirror(lanes: bool, x: Seq<real>, i: int, w: Seq<real>, t: real)
    requires
        0 <= i,
        x.len() == i + 1 + w.len(),
    ensures
        reflected_below(lanes, x, i, w, t) == mirror(x, padded(i, w), t),
{
    let p = padded(i, w);
    let y = x.skip(i);
    let d = overlap(lanes, y, w);
    let rest = y.skip(1);
    lemma_inner_padded(i, w, x);
    assert(d == inner(p, x)) by {
        if lanes {
            lemma_lane_dot(rest, w);
            lemma_inner_comm(rest, w);
        } else {
            lemma_running_dot(y[0], w, rest, 0, w.len() as int);
            assert(sum(0, |r: int| w[r] * rest[r]) == 0real);
        }
    }
    let f = t * d;
    let lhs = reflected_below(lanes, x, i, w, t);
    let rhs = mirror(x, p, t);
    assert forall|r: int| 0 <= r < x.len() implies #[trigger] lhs[r] == rhs[r] by {
        let pr = p[r];
        if d == 0real {
            lemma_zero(t);
            lemma_zero(pr);
        } else if r < i {
            lemma_zero(f);
        } else if r == i {
            lemma_one(f);
        } else {
            let z = sub_scaled(lanes, rest, w, f);
            assert(lhs[r] == z[r - i - 1]);
            lemma_negate(f, pr);
        }
    }
    assert(lhs =~= rhs);
}

/// The reflector of a column is a reflection, and clears it.
pub proof fn lemma_reflector(v: Seq<real>)
    requires
        roots_exist(),
        v.len() > 0,
    ensures
        reflector(v).tail.len() == v.len() - 1,
        is_mirror(padded(0, reflector(v).tail), reflector(v).tau),
        mirror(v, padded(0, reflector(v).tail), reflector(v).tau)[0] == reflector(v).beta,
        forall|r: int|
            0 < r < v.len() ==> #[trigger] mirror(
                v,
                padded(0, reflector(v).tail),
                reflector(v).tau,
            )[r] == 0real,
{
    let h = reflector(v);
    let n = v.len() as int;
    let norm2 = running_dot(0real, v, v, 0, n);
    lemma_running_dot(0real, v, v, 0, n);
    let sq = |i: int| v[i] * v[i];
    assert(sum(0, sq) == 0real);
    assert(norm2 == dot(v, v, n));
    lemma_sum_squares(v, n);
    lemma_root(norm2);
    let norm = norm2.root();
    let sign: real = if v[0] < 0real {
        1real
    } else {
        -1real
    };
    let u0 = v[0] - sign * norm;
    let p = padded(0, h.tail);
    let ww = inner(p, p);
    if norm2 == 0real {
        assert(v[0] == 0real);
        lemma_zero(sign);
        assert forall|r: int| 0 <= r < n implies #[trigger] mirror(v, p, h.tau)[r] == 0real by {
            let d = inner(p, v);
            let pr = p[r];
            lemma_zero(d);
            lemma_zero(pr);
            assert(v[r] == 0real);
        }
    } else {
        assert(norm > 0real);
        assert(u0 != 0real) by {
            if v[0] < 0real {
                lemma_one(norm);
            } else {
                lemma_one(norm);
            }
        }
        let v0 = v[0];
        let rest = v.skip(1);
        // The squares below the first entry.
        let below = dot(rest, rest, n - 1);
        assert(below == norm2 - v0 * v0) by {
            lemma_sum_split(n - 1, 1, sq);
            assert(sum(1, sq) == sum(0, sq) + sq(0));
            let g = |i: int| sq(1 + i);
            let g2 = |i: int| rest[i] * rest[i];
            lemma_sum_ext(n - 1, g, g2);
        }
        let tail = h.tail;
        let inv = 1real / u0;
        lemma_inverse(u0);
        assert forall|r: int| 0 <= r < n - 1 implies #[trigger] tail[r] == inv * rest[r] by {
            lemma_over(rest[r], u0);
        }
        // w . w
        let tt = |i: int| tail[i] * tail[i];
        let rr = |i: int| rest[i] * rest[i];
        let srr = |i: int| (inv * inv) * rr(i);
        assert forall|i: int| 0 <= i < n - 1 implies #[trigger] tt(i) == srr(i) by {
            let x = rest[i];
            lemma_regroup(inv, x, inv, x);
        }
        lemma_sum_ext(n - 1, tt, srr);
        lemma_sum_scale(n - 1, rr, inv * inv);
        lemma_inner_padded(0, tail, p);
        assert(p.skip(0).skip(1) =~= tail);
        assert(ww == 1real + (inv * inv) * below);
        // w . v
        let tr = |i: int| tail[i] * rest[i];
        let str_ = |i: int| inv * rr(i);
        assert forall|i: int| 0 <= i < n - 1 implies #[trigger] tr(i) == str_(i) by {
            let x = rest[i];
            lemma_assoc(inv, x, x);
        }
        lemma_sum_ext(n - 1, tr, str_);
        lemma_sum_scale(n - 1, rr, inv);
        lemma_inner_padded(0, tail, v);
        assert(v.skip(0).skip(1) =~= rest);
        let d = inner(p, v);
        assert(d == v0 + inv * below);
        let tau = h.tau;
        assert(tau == (-u0) / norm * sign);
        let ni = 1real / norm;
        lemma_inverse(norm);
        lemma_over(-u0, norm);
        assert(tau == (-u0) * ni * sign);
        lemma_one(1real);
        lemma_one(-1real);
        assert(sign * sign == 1real);
        lemma_reflector_algebra(v0, norm, norm2, sign, u0, inv, ni, below, tau, ww, d);
        assert forall|r: int| 0 <= r < n implies #[trigger] mirror(v, p, tau)[r] == (if r == 0 {
            h.beta
        } else {
            0real
        }) by {
            let pr = p[r];
            assert(mirror(v, p, tau)[r] == v[r] - tau * d * pr);
            assert(tau * d == u0);
            if r == 0 {
                lemma_one(u0);
            } else {
                assert(pr == inv * rest[r - 1]);
                let x = rest[r - 1];
                lemma_comm(inv, u0);
                lemma_assoc(u0, inv, x);
                assert(u0 * inv == 1real);
                lemma_one(x);
            }
        }
    }
}

/// The two identities behind [`lemma_reflector`].
proof fn lemma_reflector_algebra(
    v0: real,
    norm: real,
    norm2: real,
    sign: real,
    u0: real,
    inv: real,
    ni: real,
    below: real,
    tau: real,
    ww: real,
    d: real,
)
    requires
        norm * norm == norm2,
        sign * sign == 1real,
        u0 == v0 - sign * norm,
        inv * u0 == 1real,
        ni * norm == 1real,
        below == norm2 - v0 * v0,
        tau == (-u0) * ni * sign,
        ww == 1real + (inv * inv) * below,
        d == v0 + inv * below,
    ensures
        tau * ww == 2real,
        tau * d == u0,
{
    let sn = sign * norm;
    let e = sn + v0;
    let ib = inv * below;
    assert(sn * sn == norm2) by {
        lemma_regroup(sign, norm, sign, norm);
        lemma_one(norm2);
    }
    assert(below == -(u0 * e)) by {
        // (v0 - sn) (sn + v0) = v0 v0 - sn sn
        lemma_spread(u0, sn, v0);
        lemma_spread_sub(sn, v0, sn);
        lemma_spread_sub(v0, v0, sn);
    }
    assert(ib == -e) by {
        let ue = u0 * e;
        lemma_negate(ue, inv);
        lemma_assoc(inv, u0, e);
        lemma_one(e);
    }
    assert(d == -sn);
    // tau = -(u0 g) with g = ni sign, and g sn = 1
    let g = ni * sign;
    let ug = u0 * g;
    assert(tau == -ug) by {
        lemma_negate(u0, ni);
        let un = u0 * ni;
        lemma_negate(un, sign);
        lemma_assoc(u0, ni, sign);
    }
    assert(g * sn == 1real) by {
        lemma_regroup(ni, sign, norm, sign);
        lemma_one(1real);
    }
    assert(tau * d == u0) by {
        lemma_negate(ug, -sn);
        lemma_negate(sn, ug);
        lemma_assoc(u0, g, sn);
        lemma_one(u0);
    }
    // u0 w.w = u0 + inv below = u0 - sn - v0 = -2 sn
    let uw = u0 * ww;
    assert(uw == -(sn + sn)) by {
        let ii = inv * inv;
        lemma_spread(u0, 1real, ii * below);
        lemma_one(u0);
        lemma_assoc(inv, inv, below);
        lemma_assoc(u0, inv, ib);
        lemma_one(ib);
    }
    assert(tau * ww == 2real) by {
        lemma_negate(ug, ww);
        lemma_assoc(g, u0, ww);
        lemma_negate(sn + sn, g);
        lemma_spread(g, sn, sn);
    }
}

} // verus!
