//! What rounding can do to the singular value decomposition: every rotation, length and direction
//! is close to the exact one for the numbers that it begins with, in an arithmetic whose operations
//! have a small relative error; and which pairs are rotated, in any arithmetic at all.

use crate::algebra::{
    lemma_comm, lemma_inverse, lemma_not_negative, lemma_one, lemma_over, lemma_square,
};
use crate::chol_laws::lemma_tenth_positive;
use crate::dense::{reduced_state, square_r, tall_left};
use crate::error_laws::{abs, accurate, lemma_abs_times, lemma_times_order, power, within};
use crate::exact::{inner, lemma_root, lemma_running_dot, lemma_sum_ext, sum};
use crate::grid::{cell, lemma_cell_bound, lemma_cell_div};
use crate::house::{qr_q, qr_r, tall};
use crate::lanes::{
    lane_sum, lane_sums, rotated_first, rotated_second, running_dot, tree4, wide_dot, wide_whole,
};
use crate::qr_rounding::{
    lemma_like_more, lemma_like_over, lemma_like_root, lemma_like_rounded, lemma_like_self,
    lemma_like_times, lemma_norm2_like, like, steady,
};
use crate::ratio::{agree, lemma_agree_plus, lemma_agree_within, lemma_factor, lemma_sign_times};
use crate::rounding_laws::{grown, held, law_lane_dot_rounded, law_rotated_rounded, sizes, vals};
use crate::scalar::{roots_exist, Number, WideNumber};
use crate::svd::{
    cosine, direction, left_entry, lemma_ranked, length, lengths, pair_step, place, ranked,
    right_entry, row_steps, settled, singular_value, spent, svd_state, sweep_rows, tangent, triplet,
    turned, Jacobi,
};
use crate::svd_laws::{lemma_cosine, lemma_ranked_descending, lemma_ranked_distinct};
use vstd::prelude::*;

verus! {

/// The cosine and the sine that belong to a tangent, rounded, agree with the exact ones up to the
/// factors of a few operations, so that their squares add up to 1 as far.
pub proof fn law_cosine_rounded<T: Number>(val: spec_fn(T) -> real, eps: real, b: real, t: T)
    requires
        roots_exist(),
        steady(val, eps, b),
    ensures
        ({
            let tv = val(t);
            let root = (1real + tv * tv).root();
            let c = cosine(t);
            let s = t.times(c);
            &&& root > 0real
            &&& root * root == 1real + tv * tv
            &&& like(val(c), 1real / root, b, 4)
            &&& like(val(s), tv / root, b, 5)
            &&& like(val(c) * val(c) + val(s) * val(s), 1real, b, 10)
        }),
{
    let tv = val(t);
    let tt = tv * tv;
    lemma_square(tv);
    let w = 1real + tt;
    lemma_root(w);
    let root = w.root();
    let p = t.times(t);
    lemma_like_self(tt, b);
    lemma_like_rounded(val(p), tt, tt, eps, b, 0);
    lemma_like_self(1real, b);
    lemma_like_more(1real, 1real, b, 0, 1);
    lemma_agree_plus(1real, 1real, val(p), tt, power(b, 1));
    let q = T::unit().plus(p);
    lemma_like_rounded(val(q), 1real + val(p), w, eps, b, 1);
    lemma_root(val(q));
    lemma_like_root(val(q), w, b, 2);
    let r = q.root();
    assert(abs(val(q).root()) == val(q).root());
    lemma_like_rounded(val(r), val(q).root(), root, eps, b, 2);
    lemma_like_over(1real, 1real, 0, val(r), root, 3, b);
    let c = cosine(t);
    lemma_like_rounded(val(c), 1real / val(r), 1real / root, eps, b, 3);
    let cv = 1real / root;
    lemma_like_self(tv, b);
    lemma_like_times(tv, tv, 0, val(c), cv, 4, b);
    let s = t.times(c);
    lemma_like_rounded(val(s), tv * val(c), tv * cv, eps, b, 4);
    lemma_over(tv, root);
    lemma_comm(cv, tv);
    // The squares.
    let sv = tv * cv;
    lemma_like_times(val(c), cv, 4, val(c), cv, 4, b);
    lemma_like_times(val(s), sv, 5, val(s), sv, 5, b);
    lemma_like_more(val(c) * val(c), cv * cv, b, 8, 10);
    lemma_square(cv);
    lemma_square(sv);
    lemma_agree_plus(val(c) * val(c), cv * cv, val(s) * val(s), sv * sv, power(b, 10));
    assert(cv == cosine(tv));
    lemma_cosine(tv);
}

/// The tangent of a rotation, rounded, agrees with the exact one for the inner products that were
/// computed, up to the factors of 13 operations: with `zeta` for `(beta - alpha) / (2 gamma)`, its
/// absolute value is `1 / (|zeta| + sqrt(1 + zeta^2))` and its sign the opposite of that of `zeta`.
pub proof fn law_tangent_rounded<T: Number>(
    val: spec_fn(T) -> real,
    eps: real,
    b: real,
    lanes: bool,
    x: Seq<T>,
    y: Seq<T>,
)
    requires
        roots_exist(),
        steady(val, eps, b),
        val(wide_dot(lanes, x, y)) != 0real,
    ensures
        ({
            let alpha = val(wide_dot(lanes, x, x));
            let beta = val(wide_dot(lanes, y, y));
            let gamma = val(wide_dot(lanes, x, y));
            let zeta = (beta - alpha) / (2real * gamma);
            let t = val(tangent(lanes, x, y));
            &&& like(abs(t), 1real / (abs(zeta) + (1real + zeta * zeta).root()), b, 13)
            &&& zeta > 0real ==> t < 0real
            &&& zeta < 0real ==> t > 0real
        }),
{
    let (ta, tb, tg) = (wide_dot(lanes, x, x), wide_dot(lanes, y, y), wide_dot(lanes, x, y));
    let (alpha, beta, gamma) = (val(ta), val(tb), val(tg));
    let zeta = (beta - alpha) / (2real * gamma);
    let diff = tb.minus(ta);
    lemma_like_self(beta - alpha, b);
    lemma_like_rounded(val(diff), beta - alpha, beta - alpha, eps, b, 0);
    let two = T::counted(2);
    assert(within(val(two), 2real, eps * abs(2real)));
    lemma_like_self(2real, b);
    lemma_like_rounded(val(two), 2real, 2real, eps, b, 0);
    lemma_like_self(gamma, b);
    lemma_like_times(val(two), 2real, 1, gamma, gamma, 0, b);
    let den = two.times(tg);
    lemma_like_rounded(val(den), val(two) * gamma, 2real * gamma, eps, b, 1);
    lemma_sign_times(2real, gamma);
    assert(2real * gamma != 0real);
    lemma_like_over(val(diff), beta - alpha, 1, val(den), 2real * gamma, 2, b);
    let z = diff.over(den);
    assert(val(den) != 0real);
    lemma_like_rounded(val(z), val(diff) / val(den), zeta, eps, b, 3);
    let zv = val(z);
    // The absolute value and the root.
    let az = abs(zeta);
    assert(like(abs(zv), az, b, 4));
    lemma_like_more(abs(zv), az, b, 4, 11);
    let zz = zeta * zeta;
    lemma_like_times(zv, zeta, 4, zv, zeta, 4, b);
    let p = z.times(z);
    lemma_like_rounded(val(p), zv * zv, zz, eps, b, 8);
    lemma_square(zeta);
    lemma_like_self(1real, b);
    lemma_like_more(1real, 1real, b, 0, 9);
    lemma_agree_plus(1real, 1real, val(p), zz, power(b, 9));
    let q = T::unit().plus(p);
    lemma_like_rounded(val(q), 1real + val(p), 1real + zz, eps, b, 9);
    lemma_root(val(q));
    lemma_root(1real + zz);
    lemma_like_root(val(q), 1real + zz, b, 10);
    let r = q.root();
    assert(abs(val(q).root()) == val(q).root());
    lemma_like_rounded(val(r), val(q).root(), (1real + zz).root(), eps, b, 10);
    let root = (1real + zz).root();
    lemma_agree_plus(abs(zv), az, val(r), root, power(b, 11));
    let d = z.magnitude().plus(r);
    lemma_like_rounded(val(d), abs(zv) + val(r), az + root, eps, b, 11);
    let sum = az + root;
    assert(sum > 0real);
    let sg = z.sign().negated();
    let sv = val(sg);
    assert(sv == 1real || sv == -1real);
    let t = tangent(lanes, x, y);
    assert(t == sg.over(d));
    lemma_like_self(sv, b);
    lemma_like_over(sv, sv, 0, val(d), sum, 12, b);
    lemma_like_rounded(val(t), sv / val(d), sv / sum, eps, b, 12);
    lemma_over(sv, sum);
    lemma_inverse(sum);
    let inv = 1real / sum;
    lemma_one(inv);
    lemma_comm(inv, sv);
    lemma_sign_times(inv, sum);
    lemma_factor(b, 13);
}

/// The sum of the squares of a vector, rounded, is not negative.
proof fn lemma_wide_square<T: Number>(
    val: spec_fn(T) -> real,
    eps: real,
    b: real,
    lanes: bool,
    x: Seq<T>,
)
    requires
        steady(val, eps, b),
    ensures
        val(wide_dot(lanes, x, x)) >= 0real,
{
    let n = x.len() as int;
    if lanes {
        let blocks = (x.len() / 4) as nat;
        let l = lane_sums(x, x, 4, blocks);
        lemma_lane_square(val, eps, b, x, 4, 0, blocks);
        lemma_lane_square(val, eps, b, x, 4, 1, blocks);
        lemma_lane_square(val, eps, b, x, 4, 2, blocks);
        lemma_lane_square(val, eps, b, x, 4, 3, blocks);
        lemma_plus_sign(val, eps, b, l[0], l[2]);
        lemma_plus_sign(val, eps, b, l[1], l[3]);
        lemma_plus_sign(val, eps, b, l[0].plus(l[2]), l[1].plus(l[3]));
        lemma_running_square(val, eps, b, tree4(l), x, 4 * blocks as int, n);
    } else {
        lemma_running_square(val, eps, b, T::nought(), x, 0, n);
    }
}

proof fn lemma_plus_sign<T: Number>(val: spec_fn(T) -> real, eps: real, b: real, x: T, y: T)
    requires
        steady(val, eps, b),
        val(x) >= 0real,
        val(y) >= 0real,
    ensures
        val(x.plus(y)) >= 0real,
{
    lemma_agree_within(val(x.plus(y)), val(x) + val(y), eps, b);
}

proof fn lemma_lane_square<T: Number>(
    val: spec_fn(T) -> real,
    eps: real,
    b: real,
    x: Seq<T>,
    width: int,
    lane: int,
    blocks: nat,
)
    requires
        steady(val, eps, b),
    ensures
        val(lane_sum(x, x, width, lane, blocks)) >= 0real,
    decreases blocks,
{
    if blocks > 0 {
        let before = (blocks - 1) as nat;
        lemma_lane_square(val, eps, b, x, width, lane, before);
        let i = width * (blocks - 1) + lane;
        let acc = lane_sum(x, x, width, lane, before);
        lemma_square(val(x[i]));
        lemma_agree_within(
            val(x[i].fused(x[i], acc)),
            val(x[i]) * val(x[i]) + val(acc),
            eps,
            b,
        );
    }
}

proof fn lemma_running_square<T: Number>(
    val: spec_fn(T) -> real,
    eps: real,
    b: real,
    start: T,
    x: Seq<T>,
    from: int,
    to: int,
)
    requires
        steady(val, eps, b),
        val(start) >= 0real,
    ensures
        val(running_dot(start, x, x, from, to)) >= 0real,
    decreases to - from,
{
    if from < to {
        lemma_running_square(val, eps, b, start, x, from, to - 1);
        let p = x[to - 1].times(x[to - 1]);
        let v = val(x[to - 1]);
        lemma_square(v);
        lemma_agree_within(val(p), v * v, eps, b);
        lemma_plus_sign(val, eps, b, running_dot(start, x, x, from, to - 1), p);
    }
}

/// Whether a pair is settled is decided by the inner products that were computed, up to the factors
/// of 4 operations: where it is, that of the two columns is at most `10^-12` of the root of the
/// product of the others, and where it is not, it is not 0 and at least as large.
pub proof fn law_settled_rounded<T: Number>(
    val: spec_fn(T) -> real,
    eps: real,
    b: real,
    lanes: bool,
    x: Seq<T>,
    y: Seq<T>,
)
    requires
        roots_exist(),
        steady(val, eps, b),
    ensures
        ({
            let alpha = val(wide_dot(lanes, x, x));
            let beta = val(wide_dot(lanes, y, y));
            let gamma = val(wide_dot(lanes, x, y));
            let bound = real::tenth_pow(12) * (alpha * beta).root();
            &&& alpha >= 0real
            &&& beta >= 0real
            &&& settled(lanes, x, y) ==> abs(gamma) <= power(b, 4) * bound
            &&& !settled(lanes, x, y) ==> gamma != 0real && bound <= power(b, 4) * abs(gamma)
        }),
{
    let (ta, tb, tg) = (wide_dot(lanes, x, x), wide_dot(lanes, y, y), wide_dot(lanes, x, y));
    let (alpha, beta, gamma) = (val(ta), val(tb), val(tg));
    lemma_wide_square(val, eps, b, lanes, x);
    lemma_wide_square(val, eps, b, lanes, y);
    let ab = alpha * beta;
    lemma_not_negative(alpha, beta);
    lemma_root(ab);
    let p = ta.times(tb);
    lemma_like_self(ab, b);
    lemma_like_rounded(val(p), ab, ab, eps, b, 0);
    lemma_root(val(p));
    lemma_like_root(val(p), ab, b, 1);
    let r = p.root();
    assert(abs(val(p).root()) == val(p).root());
    lemma_like_rounded(val(r), val(p).root(), ab.root(), eps, b, 1);
    let tenth = T::tenth_pow(12);
    let exact = real::tenth_pow(12);
    lemma_tenth_positive(12);
    lemma_like_self(exact, b);
    lemma_like_rounded(val(tenth), exact, exact, eps, b, 0);
    lemma_like_times(val(tenth), exact, 1, val(r), ab.root(), 2, b);
    let bound = exact * ab.root();
    let q = tenth.times(r);
    lemma_like_rounded(val(q), val(tenth) * val(r), bound, eps, b, 3);
    lemma_not_negative(exact, ab.root());
    assert(settled(lanes, x, y) == (abs(gamma) <= val(q)));
    if !settled(lanes, x, y) {
        // bound <= b^4 |q| <= b^4 |gamma|
        lemma_factor(b, 4);
        lemma_times_order(power(b, 4), abs(val(q)), abs(gamma));
    }
}

/// The columns of `after` are those of `before` with columns `p` and `q` rotated by `c` and `s`, as
/// far as rounding allows.
pub open spec fn rotates_near<T: Number>(
    val: spec_fn(T) -> real,
    eps: real,
    before: Seq<Seq<T>>,
    p: int,
    q: int,
    c: T,
    s: T,
    after: Seq<Seq<T>>,
) -> bool {
    &&& after.len() == before.len()
    &&& forall|j: int|
        0 <= j < before.len() && j != p && j != q ==> #[trigger] after[j] == before[j]
    &&& after[p].len() == before[p].len()
    &&& after[q].len() == before[p].len()
    &&& forall|i: int|
        0 <= i < before[p].len() ==> held(
            val(#[trigger] after[p][i]),
            val(c) * val(before[p][i]) + val(s) * val(before[q][i]),
            abs(val(c)) * abs(val(before[p][i])) + abs(val(s)) * abs(val(before[q][i])),
            grown(eps, 2),
        )
    &&& forall|i: int|
        0 <= i < before[p].len() ==> held(
            val(#[trigger] after[q][i]),
            val(c) * val(before[q][i]) - val(s) * val(before[p][i]),
            abs(val(c)) * abs(val(before[q][i])) + abs(val(s)) * abs(val(before[p][i])),
            grown(eps, 2),
        )
}

/// The step of a pair, rounded. A pair that is settled stays; any other is rotated, in the columns
/// and in the collected rotations alike, by one cosine and one sine: their squares add up to 1, as
/// far as rounding allows, and their quotient is the tangent that makes the pair orthogonal for the
/// inner products that were computed. So it is for columns of every length and number.
pub proof fn law_pair_rounded<T: Number>(
    val: spec_fn(T) -> real,
    eps: real,
    b: real,
    lanes: bool,
    st: Jacobi<T>,
    n: int,
    p: int,
    q: int,
)
    requires
        roots_exist(),
        steady(val, eps, b),
        0 <= p < q < st.a.len(),
        st.v.len() == st.a.len(),
        tall(st.a, n),
        tall(st.v, st.a.len() as int),
    ensures
        ({
            let after = pair_step(lanes, st, p, q);
            let (x, y) = (st.a[p], st.a[q]);
            let alpha = val(wide_dot(lanes, x, x));
            let beta = val(wide_dot(lanes, y, y));
            let gamma = val(wide_dot(lanes, x, y));
            let zeta = (beta - alpha) / (2real * gamma);
            &&& settled(lanes, x, y) ==> after == st
            &&& !settled(lanes, x, y) ==> exists|c: T, s: T|
                {
                    &&& #[trigger] rotates_near(val, eps, st.a, p, q, c, s, after.a)
                    &&& #[trigger] rotates_near(val, eps, st.v, p, q, c, s, after.v)
                    &&& like(val(c) * val(c) + val(s) * val(s), 1real, b, 10)
                    &&& val(c) > 0real
                    &&& like(
                        abs(val(s)),
                        val(c) / (abs(zeta) + (1real + zeta * zeta).root()),
                        b,
                        14,
                    )
                    &&& zeta > 0real ==> val(s) < 0real
                    &&& zeta < 0real ==> val(s) > 0real
                }
        }),
{
    let after = pair_step(lanes, st, p, q);
    let (x, y) = (st.a[p], st.a[q]);
    if !settled(lanes, x, y) {
        law_settled_rounded(val, eps, b, lanes, x, y);
        law_tangent_rounded(val, eps, b, lanes, x, y);
        let t = tangent(lanes, x, y);
        law_cosine_rounded(val, eps, b, t);
        let c = cosine(t);
        let s = t.times(c);
        let tv = val(t);
        let root = (1real + tv * tv).root();
        lemma_inverse(root);
        lemma_sign_times(1real / root, root);
        assert(val(c) > 0real);
        lemma_rotates_near(val, eps, lanes, st.a, n, p, q, c, s);
        lemma_rotates_near(val, eps, lanes, st.v, st.a.len() as int, p, q, c, s);
        // The sine.
        let gamma = val(wide_dot(lanes, x, y));
        let zeta = (val(wide_dot(lanes, y, y)) - val(wide_dot(lanes, x, x))) / (2real * gamma);
        lemma_square(zeta);
        lemma_root(1real + zeta * zeta);
        let d = abs(zeta) + (1real + zeta * zeta).root();
        let e = 1real / d;
        lemma_like_self(val(c), b);
        lemma_like_times(abs(tv), e, 13, val(c), val(c), 0, b);
        lemma_abs_times(tv, val(c));
        lemma_agree_within(val(s), tv * val(c), eps, b);
        assert(within(abs(val(s)), abs(tv) * val(c), eps * abs(abs(tv) * val(c))));
        lemma_like_rounded(abs(val(s)), abs(tv) * val(c), e * val(c), eps, b, 13);
        lemma_over(val(c), d);
        lemma_sign_times(tv, val(c));
        assert(rotates_near(val, eps, st.a, p, q, c, s, after.a));
        assert(rotates_near(val, eps, st.v, p, q, c, s, after.v));
    }
}

proof fn lemma_rotates_near<T: Number>(
    val: spec_fn(T) -> real,
    eps: real,
    lanes: bool,
    lines: Seq<Seq<T>>,
    n: int,
    p: int,
    q: int,
    c: T,
    s: T,
)
    requires
        accurate(val, eps),
        0real <= eps,
        tall(lines, n),
        0 <= p < q < lines.len(),
    ensures
        rotates_near(val, eps, lines, p, q, c, s, turned(lanes, lines, p, q, c, s)),
{
    let after = turned(lanes, lines, p, q, c, s);
    let whole = wide_whole(lanes, n);
    let (x, y) = (lines[p], lines[q]);
    assert(after[p] == rotated_first(x, y, c, s, whole));
    assert(after[q] == rotated_second(x, y, c, s, whole));
    assert forall|i: int| 0 <= i < n implies held(
        val(#[trigger] after[p][i]),
        val(c) * val(x[i]) + val(s) * val(y[i]),
        abs(val(c)) * abs(val(x[i])) + abs(val(s)) * abs(val(y[i])),
        grown(eps, 2),
    ) by {
        law_rotated_rounded(val, eps, x, y, c, s, whole, i);
    }
    assert forall|i: int| 0 <= i < n implies held(
        val(#[trigger] after[q][i]),
        val(c) * val(y[i]) - val(s) * val(x[i]),
        abs(val(c)) * abs(val(y[i])) + abs(val(s)) * abs(val(x[i])),
        grown(eps, 2),
    ) by {
        law_rotated_rounded(val, eps, x, y, c, s, whole, i);
    }
}

/// The length of a column, rounded, agrees with the exact length of its numbers up to the factors
/// of `n + 2` operations, for columns of every length `n`.
pub proof fn law_length_rounded<T: Number>(
    val: spec_fn(T) -> real,
    eps: real,
    b: real,
    col: Seq<T>,
)
    requires
        roots_exist(),
        steady(val, eps, b),
    ensures
        ({
            let w = vals(val, col);
            like(val(length(col)), inner(w, w).root(), b, col.len() as int + 2)
        }),
{
    let n = col.len() as int;
    let w = vals(val, col);
    lemma_norm2_like(val, eps, b, col, n);
    lemma_running_dot(0real, w, w, 0, n);
    assert(sum(0, |i: int| w[i] * w[i]) == 0real);
    let norm2 = running_dot(T::nought(), col, col, 0, n);
    lemma_root(val(norm2));
    lemma_root(inner(w, w));
    lemma_like_root(val(norm2), inner(w, w), b, n + 1);
    assert(abs(val(norm2).root()) == val(norm2).root());
    lemma_like_rounded(
        val(length(col)),
        val(norm2).root(),
        inner(w, w).root(),
        eps,
        b,
        n + 1,
    );
}

/// The ranking goes by the numbers, in any arithmetic whose order is exact.
proof fn lemma_ranked_vals<T: Number>(
    val: spec_fn(T) -> real,
    eps: real,
    sigma: Seq<T>,
    n: int,
)
    requires
        accurate(val, eps),
        0 <= n <= sigma.len(),
    ensures
        ranked(sigma, n) == ranked(vals(val, sigma), n),
        ranked(sigma, n).len() == n,
        forall|i: int| 0 <= i < n ==> 0 <= #[trigger] ranked(sigma, n)[i] < n,
    decreases n,
{
    lemma_ranked(sigma, n);
    if n > 0 {
        lemma_ranked_vals(val, eps, sigma, n - 1);
        let order = ranked(sigma, n - 1);
        lemma_place_vals(val, eps, sigma, order, sigma[n - 1], order.len() as int);
    }
}

proof fn lemma_place_vals<T: Number>(
    val: spec_fn(T) -> real,
    eps: real,
    sigma: Seq<T>,
    order: Seq<int>,
    x: T,
    at: int,
)
    requires
        accurate(val, eps),
        at <= order.len(),
        forall|i: int| 0 <= i < order.len() ==> 0 <= #[trigger] order[i] < sigma.len(),
    ensures
        place(sigma, order, x, at) == place(vals(val, sigma), order, val(x), at),
    decreases at,
{
    if at > 0 {
        assert(0 <= order[at - 1] < sigma.len());
        lemma_place_vals(val, eps, sigma, order, x, at - 1);
    }
}

/// The triplets come in the order of the lengths of their columns, each column once, in any
/// arithmetic whose order is exact.
pub proof fn law_ranked_rounded<T: Number>(
    val: spec_fn(T) -> real,
    eps: real,
    st: Jacobi<T>,
    i: int,
    j: int,
)
    requires
        accurate(val, eps),
        0 <= i < j < st.a.len(),
    ensures
        0 <= triplet(st, i) < st.a.len(),
        0 <= triplet(st, j) < st.a.len(),
        triplet(st, i) != triplet(st, j),
        val(length(st.a[triplet(st, j)])) <= val(length(st.a[triplet(st, i)])),
        singular_value(st, i) == length(st.a[triplet(st, i)]),
        singular_value(st, j) == length(st.a[triplet(st, j)]),
{
    let sigma = lengths(st.a);
    let m = st.a.len() as int;
    lemma_ranked_vals(val, eps, sigma, m);
    let w = vals(val, sigma);
    lemma_ranked_distinct(w, m);
    lemma_ranked_descending(w, m);
    let order = ranked(w, m);
    assert(order[i] != order[j]);
    assert(w[order[j]] <= w[order[i]]);
}

/// The right singular vectors are the rows of the collected rotations that belong to the columns of
/// the triplets, in any arithmetic.
pub proof fn law_right_rows<N: Number>(st: Jacobi<N>, i: int, right: Seq<N>)
    requires
        0 <= i < st.a.len(),
        right.len() == st.v[triplet(st, i)].len(),
        forall|j: int| 0 <= j < right.len() ==> #[trigger] right[j] == right_entry(st, j, i),
    ensures
        right == st.v[triplet(st, i)],
{
    assert(right =~= st.v[triplet(st, i)]);
}

/// The left singular vector of a triplet is the direction of its column, unless its singular value
/// is 0, or is lost beside the first and its column is not orthogonal to all columns before it: each
/// entry agrees with the quotient of the entry of the column and the singular value up to the factor
/// of one operation.
pub proof fn law_left_rounded<T: Number>(
    val: spec_fn(T) -> real,
    eps: real,
    b: real,
    lanes: bool,
    st: Jacobi<T>,
    n: int,
    i: int,
    r: int,
)
    requires
        steady(val, eps, b),
        tall(st.a, n),
        0 <= i < st.a.len(),
        0 <= triplet(st, i) < st.a.len(),
        0 <= r < n,
        val(singular_value(st, i)) != 0real,
        val(singular_value(st, 0).plus(singular_value(st, i))) != val(singular_value(st, 0))
            || forall|j: int|
            0 <= j < i ==> settled(
                lanes,
                st.a[#[trigger] triplet(st, j)],
                st.a[triplet(st, i)],
            ),
    ensures
        like(
            val(left_entry(lanes, st, n, r, i)),
            val(st.a[triplet(st, i)][r]) / val(singular_value(st, i)),
            b,
            1,
        ),
{
    let x = st.a[triplet(st, i)][r];
    let s = singular_value(st, i);
    assert(!spent(lanes, st, i));
    assert(left_entry(lanes, st, n, r, i) == direction(st, i)[r]);
    let e = val(x) / val(s);
    lemma_like_self(e, b);
    lemma_like_rounded(val(x.over(s)), e, e, eps, b, 0);
}

/// The left singular vector of a tall matrix, rounded: the product of the row of Q and the left
/// singular vector of R, up to `(1 + eps)^(m + 3) - 1` of the absolute values of its terms.
pub proof fn law_tall_left_rounded<S: Number, D: WideNumber<S>>(
    val: spec_fn(S) -> real,
    eps: real,
    lanes: bool,
    cols: Seq<Seq<S>>,
    n: int,
    sweeps: int,
    r: int,
    i: int,
)
    requires
        accurate(val, eps),
        0real <= eps,
    ensures
        ({
            let m = cols.len() as int;
            let st = reduced_state::<S, D>(lanes, cols, n, sweeps);
            let q = |c: int| val(qr_q(lanes, cols, n)[c][r]);
            let l = |c: int| val(left_entry(lanes, st, m, c, i).narrowed());
            held(
                val(tall_left::<S, D>(lanes, cols, n, sweeps, r, i)),
                sum(m, |c: int| q(c) * l(c)),
                sum(m, |c: int| abs(q(c)) * abs(l(c))),
                grown(eps, m + 3),
            )
        }),
{
    let m = cols.len() as int;
    let st = reduced_state::<S, D>(lanes, cols, n, sweeps);
    let q = |c: int| val(qr_q(lanes, cols, n)[c][r]);
    let l = |c: int| val(left_entry(lanes, st, m, c, i).narrowed());
    let x = Seq::new(m as nat, |c: int| qr_q(lanes, cols, n)[c][r]);
    let y = Seq::new(m as nat, |c: int| left_entry(lanes, st, m, c, i).narrowed());
    law_lane_dot_rounded(val, eps, x, y);
    lemma_sum_ext(
        m,
        |c: int| vals(val, x)[c] * vals(val, y)[c],
        |c: int| q(c) * l(c),
    );
    lemma_sum_ext(
        m,
        |c: int| sizes(val, x)[c] * sizes(val, y)[c],
        |c: int| abs(q(c)) * abs(l(c)),
    );
}

/// The steps of the given pairs, one after the other.
pub open spec fn steps_of<N: Number>(
    lanes: bool,
    st: Jacobi<N>,
    pairs: Seq<(int, int)>,
) -> Jacobi<N>
    decreases pairs.len(),
{
    if pairs.len() == 0 {
        st
    } else {
        let (p, q) = pairs.last();
        pair_step(lanes, steps_of(lanes, st, pairs.drop_last()), p, q)
    }
}

/// `pairs` holds every pair of two of `m` columns exactly once, the smaller one first, and nothing
/// else.
pub open spec fn every_pair(pairs: Seq<(int, int)>, m: int) -> bool {
    &&& forall|i: int| 0 <= i < pairs.len() ==> 0 <= (#[trigger] pairs[i]).0 < pairs[i].1 < m
    &&& forall|p: int, q: int| 0 <= p < q < m ==> #[trigger] pairs.contains((p, q))
    &&& forall|i: int, j: int|
        0 <= i < j < pairs.len() ==> #[trigger] pairs[i] != #[trigger] pairs[j]
}

proof fn lemma_steps_join<N: Number>(
    lanes: bool,
    st: Jacobi<N>,
    x: Seq<(int, int)>,
    y: Seq<(int, int)>,
)
    ensures
        steps_of(lanes, steps_of(lanes, st, x), y) == steps_of(lanes, st, x + y),
    decreases y.len(),
{
    if y.len() > 0 {
        lemma_steps_join(lanes, st, x, y.drop_last());
        assert((x + y).drop_last() =~= x + y.drop_last());
        assert((x + y).last() == y.last());
    } else {
        assert(x + y =~= x);
    }
}

/// The pairs of column `p` with those behind it, up to `q`.
spec fn row_pairs(p: int, q: int) -> Seq<(int, int)> {
    Seq::new(
        (if q > p + 1 {
            q - p - 1
        } else {
            0
        }) as nat,
        |i: int| (p, p + 1 + i),
    )
}

proof fn lemma_row_pairs<N: Number>(lanes: bool, st: Jacobi<N>, p: int, q: int)
    ensures
        row_steps(lanes, st, p, q) == steps_of(lanes, st, row_pairs(p, q)),
    decreases q - p,
{
    if q > p + 1 {
        lemma_row_pairs(lanes, st, p, q - 1);
        assert(row_pairs(p, q).drop_last() =~= row_pairs(p, q - 1));
        assert(row_pairs(p, q).last() == (p, q - 1));
    }
}

/// The pairs whose first column is below `p`.
proof fn lemma_sweep_pairs<N: Number>(lanes: bool, st: Jacobi<N>, m: int, p: int) -> (pairs: Seq<
    (int, int),
>)
    requires
        0 <= p <= m,
    ensures
        sweep_rows(lanes, st, m, p) == steps_of(lanes, st, pairs),
        forall|i: int|
            0 <= i < pairs.len() ==> 0 <= (#[trigger] pairs[i]).0 < pairs[i].1 < m && pairs[i].0
                < p,
        forall|x: int, y: int| 0 <= x < y < m && x < p ==> #[trigger] pairs.contains((x, y)),
        forall|i: int, j: int|
            0 <= i < j < pairs.len() ==> #[trigger] pairs[i] != #[trigger] pairs[j],
    decreases p,
{
    if p <= 0 {
        Seq::empty()
    } else {
        let x = lemma_sweep_pairs(lanes, st, m, p - 1);
        let y = row_pairs(p - 1, m);
        lemma_row_pairs(lanes, sweep_rows(lanes, st, m, p - 1), p - 1, m);
        lemma_steps_join(lanes, st, x, y);
        let pairs = x + y;
        assert forall|u: int, w: int| 0 <= u < w < m && u < p implies #[trigger] pairs.contains(
            (u, w),
        ) by {
            if u < p - 1 {
                assert(x.contains((u, w)));
                let i = choose|i: int| 0 <= i < x.len() && x[i] == (u, w);
                assert(pairs[i] == (u, w));
            } else {
                let i = w - p;
                assert(y[i] == (u, w));
                assert(pairs[x.len() + i] == (u, w));
            }
        }
        pairs
    }
}

/// A sweep gives every pair of columns its turn, exactly once, in any arithmetic: it is the steps
/// of all pairs, one after the other.
pub proof fn law_sweep_pairs<N: Number>(lanes: bool, st: Jacobi<N>, m: int)
    requires
        0 <= m,
    ensures
        exists|pairs: Seq<(int, int)>| #[trigger]
            every_pair(pairs, m) && sweep_rows(lanes, st, m, m) == steps_of(lanes, st, pairs),
{
    let pairs = lemma_sweep_pairs(lanes, st, m, m);
    assert(every_pair(pairs, m));
}

/// The sweeps of the decomposition, in any arithmetic: the state begins with the columns of the
/// matrix, widened, and the unit matrix, and every sweep that is asked for gives every pair of
/// columns its turn.
pub proof fn law_svd_sweeps<S, D: WideNumber<S>>(
    lanes: bool,
    data: Seq<S>,
    n: int,
    m: int,
    sweeps: int,
)
    requires
        0 <= n,
        0 <= m,
        0 <= sweeps,
    ensures
        ({
            let first = svd_state::<S, D>(lanes, data, n, m, 0);
            let before = svd_state::<S, D>(lanes, data, n, m, sweeps);
            let after = svd_state::<S, D>(lanes, data, n, m, sweeps + 1);
            &&& first.a.len() == m
            &&& first.v.len() == m
            &&& tall(first.a, n)
            &&& tall(first.v, m)
            &&& forall|j: int, r: int|
                0 <= j < m && 0 <= r < n ==> #[trigger] first.a[j][r] == D::widened(
                    data[r * m + j],
                )
            &&& forall|j: int, r: int|
                0 <= j < m && 0 <= r < m ==> #[trigger] first.v[j][r] == (if r == j {
                    D::unit()
                } else {
                    D::nought()
                })
            &&& exists|pairs: Seq<(int, int)>| #[trigger]
                every_pair(pairs, m) && after == steps_of(lanes, before, pairs)
        }),
{
    let before = svd_state::<S, D>(lanes, data, n, m, sweeps);
    law_sweep_pairs(lanes, before, m);
}

/// The same for the SVD of a tall matrix, which begins with its triangular factor.
pub proof fn law_tall_sweeps<S: Number, D: WideNumber<S>>(
    lanes: bool,
    cols: Seq<Seq<S>>,
    n: int,
    sweeps: int,
)
    requires
        0 <= sweeps,
    ensures
        ({
            let m = cols.len() as int;
            let first = reduced_state::<S, D>(lanes, cols, n, 0);
            let before = reduced_state::<S, D>(lanes, cols, n, sweeps);
            let after = reduced_state::<S, D>(lanes, cols, n, sweeps + 1);
            &&& first.a.len() == m
            &&& first.v.len() == m
            &&& tall(first.a, m)
            &&& tall(first.v, m)
            &&& forall|j: int, r: int|
                0 <= j < m && 0 <= r < m ==> #[trigger] first.a[j][r] == D::widened(
                    qr_r(lanes, cols, n, r, j),
                )
            &&& forall|j: int, r: int|
                0 <= j < m && 0 <= r < m ==> #[trigger] first.v[j][r] == (if r == j {
                    D::unit()
                } else {
                    D::nought()
                })
            &&& exists|pairs: Seq<(int, int)>| #[trigger]
                every_pair(pairs, m) && after == steps_of(lanes, before, pairs)
        }),
{
    let m = cols.len() as int;
    let square = square_r(lanes, cols, n);
    law_svd_sweeps::<S, D>(lanes, square, m, m, sweeps);
    let first = reduced_state::<S, D>(lanes, cols, n, 0);
    assert forall|j: int, r: int| 0 <= j < m && 0 <= r < m implies #[trigger] first.a[j][r]
        == D::widened(qr_r(lanes, cols, n, r, j)) by {
        lemma_cell_bound(m, m, r, j);
        lemma_cell_div(m, r, j);
        assert(square[cell(r, m, j)] == qr_r(lanes, cols, n, r, j));
    }
}

} // verus!
