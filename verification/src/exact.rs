//! Sums and vectors over the mathematical numbers, and what the kernels compute there.

use crate::algebra::{
    lemma_assoc, lemma_comm, lemma_no_divisors, lemma_one, lemma_spread, lemma_spread_scaled,
    lemma_square, lemma_zero,
};
use crate::lanes::{lane_dot, lane_sums, running_dot, tree4, tree8, wide_dot};
use crate::scalar::{has_root, is_root, roots_exist, Number};
use vstd::prelude::*;

verus! {

/// `f(0) + ... + f(n - 1)`.
pub open spec fn sum(n: int, f: spec_fn(int) -> real) -> real
    decreases n,
{
    if n <= 0 {
        0real
    } else {
        sum(n - 1, f) + f(n - 1)
    }
}

/// The inner product of the first `n` entries.
pub open spec fn dot(a: Seq<real>, b: Seq<real>, n: int) -> real {
    sum(n, |i: int| a[i] * b[i])
}

/// The inner product.
pub open spec fn inner(x: Seq<real>, y: Seq<real>) -> real {
    dot(x, y, x.len() as int)
}

/// 1 on the diagonal, 0 elsewhere.
pub open spec fn delta(i: int, j: int) -> real {
    if i == j {
        1real
    } else {
        0real
    }
}

/// `x + a y`.
pub open spec fn combined(x: Seq<real>, a: real, y: Seq<real>) -> Seq<real> {
    Seq::new(x.len(), |r: int| x[r] + a * y[r])
}

pub proof fn lemma_sum_ext(n: int, f: spec_fn(int) -> real, g: spec_fn(int) -> real)
    requires
        forall|i: int| 0 <= i < n ==> #[trigger] f(i) == g(i),
    ensures
        sum(n, f) == sum(n, g),
    decreases n,
{
    if n > 0 {
        lemma_sum_ext(n - 1, f, g);
    }
}

/// A sum of smaller terms is smaller.
pub proof fn lemma_sum_at_most(n: int, f: spec_fn(int) -> real, g: spec_fn(int) -> real)
    requires
        forall|i: int| 0 <= i < n ==> #[trigger] f(i) <= g(i),
    ensures
        sum(n, f) <= sum(n, g),
    decreases n,
{
    if n > 0 {
        lemma_sum_at_most(n - 1, f, g);
        assert(f(n - 1) <= g(n - 1));
    }
}

pub proof fn lemma_sum_zero(n: int, f: spec_fn(int) -> real)
    requires
        forall|i: int| 0 <= i < n ==> #[trigger] f(i) == 0real,
    ensures
        sum(n, f) == 0real,
    decreases n,
{
    if n > 0 {
        lemma_sum_zero(n - 1, f);
    }
}

/// A sum with one term that can differ from 0.
pub proof fn lemma_sum_single(n: int, f: spec_fn(int) -> real, at: int)
    requires
        0 <= at < n,
        forall|i: int| 0 <= i < n && i != at ==> #[trigger] f(i) == 0real,
    ensures
        sum(n, f) == f(at),
    decreases n,
{
    if at == n - 1 {
        lemma_sum_zero(n - 1, f);
    } else {
        lemma_sum_single(n - 1, f, at);
    }
}

pub proof fn lemma_sum_add(n: int, f: spec_fn(int) -> real, g: spec_fn(int) -> real)
    ensures
        sum(n, |i: int| f(i) + g(i)) == sum(n, f) + sum(n, g),
    decreases n,
{
    if n > 0 {
        lemma_sum_add(n - 1, f, g);
    }
}

pub proof fn lemma_sum_scale(n: int, f: spec_fn(int) -> real, a: real)
    ensures
        sum(n, |i: int| a * f(i)) == a * sum(n, f),
    decreases n,
{
    if n > 0 {
        lemma_sum_scale(n - 1, f, a);
        let s = sum(n - 1, f);
        let t = f(n - 1);
        lemma_spread(a, s, t);
    } else {
        lemma_zero(a);
    }
}

/// A sum in two parts.
pub proof fn lemma_sum_split(n: int, k: int, f: spec_fn(int) -> real)
    requires
        0 <= k,
        0 <= n,
    ensures
        sum(k + n, f) == sum(k, f) + sum(n, |i: int| f(k + i)),
    decreases n,
{
    if n > 0 {
        lemma_sum_split(n - 1, k, f);
        let g = |i: int| f(k + i);
        assert(sum(n, g) == sum(n - 1, g) + f(k + (n - 1)));
        assert(sum(k + n, f) == sum(k + n - 1, f) + f(k + n - 1));
    } else {
        assert(sum(0, |i: int| f(k + i)) == 0real);
    }
}

/// Two sums can be taken in either order.
pub proof fn lemma_sum_swap(n: int, m: int, f: spec_fn(int, int) -> real)
    ensures
        sum(n, |i: int| sum(m, |j: int| f(i, j))) == sum(m, |j: int| sum(n, |i: int| f(i, j))),
    decreases n,
{
    let inner_j = |j: int| sum(n, |i: int| f(i, j));
    let inner_i = |i: int| sum(m, |j: int| f(i, j));
    if n <= 0 {
        lemma_sum_zero(m, inner_j);
    } else {
        lemma_sum_swap(n - 1, m, f);
        let prev = |j: int| sum(n - 1, |i: int| f(i, j));
        let row = |j: int| f(n - 1, j);
        lemma_sum_add(m, prev, row);
        let both = |j: int| prev(j) + row(j);
        assert forall|j: int| 0 <= j < m implies #[trigger] both(j) == inner_j(j) by {
            let col = |i: int| f(i, j);
            assert(sum(n, col) == sum(n - 1, col) + col(n - 1));
        }
        lemma_sum_ext(m, both, inner_j);
        assert(sum(n - 1, inner_i) == sum(m, prev));
        assert(inner_i(n - 1) == sum(m, row)) by {
            assert(row =~= (|j: int| f(n - 1, j)));
        }
    }
}

/// A sum of squares is not negative, and is 0 only where every term is.
pub proof fn lemma_sum_squares(a: Seq<real>, n: int)
    requires
        0 <= n <= a.len(),
    ensures
        dot(a, a, n) >= 0real,
        dot(a, a, n) == 0real ==> forall|i: int| 0 <= i < n ==> #[trigger] a[i] == 0real,
    decreases n,
{
    let f = |i: int| a[i] * a[i];
    if n > 0 {
        lemma_sum_squares(a, n - 1);
        let v = a[n - 1];
        lemma_square(v);
        if v * v == 0real {
            lemma_no_divisors(v, v);
        }
        assert(sum(n, f) == sum(n - 1, f) + v * v);
    }
}

pub proof fn lemma_inner_comm(x: Seq<real>, y: Seq<real>)
    requires
        x.len() == y.len(),
    ensures
        inner(x, y) == inner(y, x),
{
    let f = |i: int| x[i] * y[i];
    let g = |i: int| y[i] * x[i];
    lemma_sum_ext(x.len() as int, f, g);
}

/// The inner product is linear.
pub proof fn lemma_inner_combined(w: Seq<real>, x: Seq<real>, a: real, y: Seq<real>)
    requires
        w.len() == x.len(),
        w.len() == y.len(),
    ensures
        inner(w, combined(x, a, y)) == inner(w, x) + a * inner(w, y),
{
    let n = w.len() as int;
    let z = combined(x, a, y);
    let f = |i: int| w[i] * x[i];
    let g = |i: int| w[i] * y[i];
    let ag = |i: int| a * g(i);
    let h = |i: int| w[i] * z[i];
    let fg = |i: int| f(i) + ag(i);
    assert forall|i: int| 0 <= i < n implies #[trigger] h(i) == fg(i) by {
        let (wi, xi, yi) = (w[i], x[i], y[i]);
        lemma_spread_scaled(wi, xi, a, yi);
    }
    lemma_sum_ext(n, h, fg);
    lemma_sum_add(n, f, ag);
    lemma_sum_scale(n, g, a);
}

/// Two sums whose terms differ in one place.
pub proof fn lemma_sum_change(n: int, f: spec_fn(int) -> real, g: spec_fn(int) -> real, at: int)
    requires
        0 <= at < n,
        forall|i: int| 0 <= i < n && i != at ==> #[trigger] f(i) == g(i),
    ensures
        sum(n, f) - f(at) == sum(n, g) - g(at),
    decreases n,
{
    if at == n - 1 {
        lemma_sum_ext(n - 1, f, g);
    } else {
        lemma_sum_change(n - 1, f, g, at);
    }
}

/// Two sums whose terms differ in two places, and not in total.
pub proof fn lemma_sum_exchange(
    n: int,
    f: spec_fn(int) -> real,
    g: spec_fn(int) -> real,
    p: int,
    q: int,
)
    requires
        0 <= p < q < n,
        forall|i: int| 0 <= i < n && i != p && i != q ==> #[trigger] f(i) == g(i),
        f(p) + f(q) == g(p) + g(q),
    ensures
        sum(n, f) == sum(n, g),
{
    let h = |i: int|
        if i == q {
            f(q)
        } else {
            g(i)
        };
    lemma_sum_change(n, f, h, p);
    lemma_sum_change(n, h, g, q);
}

/// The sum over a list with one more entry.
pub proof fn lemma_sum_insert(order: Seq<int>, at: int, x: int, f: spec_fn(int) -> real)
    requires
        0 <= at <= order.len(),
    ensures
        sum(order.len() as int + 1, |i: int| f(order.insert(at, x)[i])) == sum(
            order.len() as int,
            |i: int| f(order[i]),
        ) + f(x),
    decreases order.len(),
{
    let n = order.len() as int;
    let longer = order.insert(at, x);
    let g = |i: int| f(longer[i]);
    let h = |i: int| f(order[i]);
    assert(sum(n + 1, g) == sum(n, g) + g(n));
    if at == n {
        lemma_sum_ext(n, g, h);
    } else {
        let shorter = order.drop_last();
        lemma_sum_insert(shorter, at, x, f);
        let g2 = |i: int| f(shorter.insert(at, x)[i]);
        let h2 = |i: int| f(shorter[i]);
        lemma_sum_ext(n, g, g2);
        lemma_sum_ext(n - 1, h, h2);
        assert(sum(n, h) == sum(n - 1, h) + h(n - 1));
    }
}

/// A sum whose terms from `k` on are 0.
pub proof fn lemma_sum_short(n: int, k: int, f: spec_fn(int) -> real)
    requires
        0 <= k <= n,
        forall|i: int| k <= i < n ==> #[trigger] f(i) == 0real,
    ensures
        sum(n, f) == sum(k, f),
    decreases n,
{
    if k < n {
        lemma_sum_short(n - 1, k, f);
    }
}

/// The inner product with a combination of vectors.
pub proof fn lemma_inner_expand(
    y: Seq<real>,
    q: Seq<Seq<real>>,
    coef: spec_fn(int) -> real,
    x: Seq<real>,
)
    requires
        x.len() == y.len(),
        forall|c: int| 0 <= c < q.len() ==> (#[trigger] q[c]).len() == y.len(),
        forall|r: int|
            0 <= r < y.len() ==> #[trigger] x[r] == sum(
                q.len() as int,
                |c: int| q[c][r] * coef(c),
            ),
    ensures
        inner(y, x) == sum(q.len() as int, |c: int| inner(y, q[c]) * coef(c)),
{
    let m = y.len() as int;
    let k = q.len() as int;
    let term = |r: int, c: int| y[r] * (q[c][r] * coef(c));
    let f = |r: int| y[r] * x[r];
    let rows = |r: int| sum(k, |c: int| term(r, c));
    assert forall|r: int| 0 <= r < m implies #[trigger] f(r) == rows(r) by {
        let t = |c: int| q[c][r] * coef(c);
        lemma_sum_scale(k, t, y[r]);
        let st = |c: int| y[r] * t(c);
        let tr = |c: int| term(r, c);
        lemma_sum_ext(k, st, tr);
    }
    lemma_sum_ext(m, f, rows);
    lemma_sum_swap(m, k, term);
    let cols = |c: int| sum(m, |r: int| term(r, c));
    let g = |c: int| inner(y, q[c]) * coef(c);
    assert forall|c: int| 0 <= c < k implies #[trigger] cols(c) == g(c) by {
        let a = coef(c);
        let h = |r: int| y[r] * q[c][r];
        lemma_sum_scale(m, h, a);
        let ah = |r: int| a * h(r);
        let tc = |r: int| term(r, c);
        assert forall|r: int| 0 <= r < m implies #[trigger] tc(r) == ah(r) by {
            let (u, v) = (y[r], q[c][r]);
            lemma_assoc(u, v, a);
            lemma_comm(u * v, a);
        }
        lemma_sum_ext(m, tc, ah);
        lemma_comm(a, inner(y, q[c]));
    }
    lemma_sum_ext(k, cols, g);
}

/// The inner product with one of a family of orthonormal vectors reads off a coefficient.
pub proof fn lemma_orthonormal_coefficient(
    q: Seq<Seq<real>>,
    coef: spec_fn(int) -> real,
    x: Seq<real>,
    d: int,
)
    requires
        0 <= d < q.len(),
        forall|c: int| 0 <= c < q.len() ==> (#[trigger] q[c]).len() == x.len(),
        forall|c: int|
            0 <= c < q.len() ==> inner(q[d], #[trigger] q[c]) == delta(d, c),
        forall|r: int|
            0 <= r < x.len() ==> #[trigger] x[r] == sum(
                q.len() as int,
                |c: int| q[c][r] * coef(c),
            ),
    ensures
        inner(q[d], x) == coef(d),
{
    lemma_inner_expand(q[d], q, coef, x);
    let g = |c: int| inner(q[d], q[c]) * coef(c);
    assert forall|c: int| 0 <= c < q.len() && c != d implies #[trigger] g(c) == 0real by {
        lemma_zero(coef(c));
    }
    lemma_sum_single(q.len() as int, g, d);
    lemma_one(coef(d));
}

/// Combinations of orthonormal vectors have the inner product of their coefficients.
pub proof fn lemma_isometry(
    q: Seq<Seq<real>>,
    f: spec_fn(int) -> real,
    x: Seq<real>,
    g: spec_fn(int) -> real,
    y: Seq<real>,
)
    requires
        x.len() == y.len(),
        forall|c: int| 0 <= c < q.len() ==> (#[trigger] q[c]).len() == x.len(),
        forall|c: int, d: int|
            0 <= c < q.len() && 0 <= d < q.len() ==> inner(#[trigger] q[c], #[trigger] q[d])
                == delta(c, d),
        forall|r: int|
            0 <= r < x.len() ==> #[trigger] x[r] == sum(q.len() as int, |c: int| q[c][r] * f(c)),
        forall|r: int|
            0 <= r < y.len() ==> #[trigger] y[r] == sum(q.len() as int, |c: int| q[c][r] * g(c)),
    ensures
        inner(x, y) == sum(q.len() as int, |c: int| f(c) * g(c)),
{
    lemma_inner_expand(x, q, g, y);
    let h = |c: int| inner(x, q[c]) * g(c);
    let fg = |c: int| f(c) * g(c);
    assert forall|c: int| 0 <= c < q.len() implies #[trigger] h(c) == fg(c) by {
        lemma_orthonormal_coefficient(q, f, x, c);
        lemma_inner_comm(x, q[c]);
    }
    lemma_sum_ext(q.len() as int, h, fg);
}

/// The square root of a nonnegative number.
pub proof fn lemma_root(x: real)
    requires
        roots_exist(),
        x >= 0real,
    ensures
        x.root() >= 0real,
        x.root() * x.root() == x,
        x == 0real ==> x.root() == 0real,
        x > 0real ==> x.root() > 0real,
{
    assert(has_root(x));
    let r = x.root();
    assert(is_root(r, x));
    if r * r == 0real {
        lemma_no_divisors(r, r);
    }
    lemma_zero(0real);
}

/// What a running dot product adds up to.
pub proof fn lemma_running_dot(start: real, a: Seq<real>, b: Seq<real>, from: int, to: int)
    requires
        0 <= from <= to,
    ensures
        running_dot(start, a, b, from, to) == start + dot(a, b, to) - dot(a, b, from),
    decreases to - from,
{
    if from < to {
        lemma_running_dot(start, a, b, from, to - 1);
        let f = |i: int| a[i] * b[i];
        assert(sum(to, f) == sum(to - 1, f) + f(to - 1));
    }
}

/// What eight lanes add up to.
pub proof fn lemma_lanes8(a: Seq<real>, b: Seq<real>, blocks: nat)
    ensures
        tree8(lane_sums(a, b, 8, blocks)) == dot(a, b, 8 * blocks as int),
    decreases blocks,
{
    let f = |i: int| a[i] * b[i];
    let l = lane_sums(a, b, 8, blocks);
    if blocks > 0 {
        let p = (blocks - 1) as nat;
        lemma_lanes8(a, b, p);
        let l0 = lane_sums(a, b, 8, p);
        let x = 8 * (blocks - 1);
        assert(l[0] == f(x) + l0[0]);
        assert(l[1] == f(x + 1) + l0[1]);
        assert(l[2] == f(x + 2) + l0[2]);
        assert(l[3] == f(x + 3) + l0[3]);
        assert(l[4] == f(x + 4) + l0[4]);
        assert(l[5] == f(x + 5) + l0[5]);
        assert(l[6] == f(x + 6) + l0[6]);
        assert(l[7] == f(x + 7) + l0[7]);
        assert(sum(x + 1, f) == sum(x, f) + f(x));
        assert(sum(x + 2, f) == sum(x + 1, f) + f(x + 1));
        assert(sum(x + 3, f) == sum(x + 2, f) + f(x + 2));
        assert(sum(x + 4, f) == sum(x + 3, f) + f(x + 3));
        assert(sum(x + 5, f) == sum(x + 4, f) + f(x + 4));
        assert(sum(x + 6, f) == sum(x + 5, f) + f(x + 5));
        assert(sum(x + 7, f) == sum(x + 6, f) + f(x + 6));
        assert(sum(x + 8, f) == sum(x + 7, f) + f(x + 7));
    } else {
        assert(sum(0, f) == 0real);
    }
}

/// What four lanes add up to.
pub proof fn lemma_lanes4(a: Seq<real>, b: Seq<real>, blocks: nat)
    ensures
        tree4(lane_sums(a, b, 4, blocks)) == dot(a, b, 4 * blocks as int),
    decreases blocks,
{
    let f = |i: int| a[i] * b[i];
    let l = lane_sums(a, b, 4, blocks);
    if blocks > 0 {
        let p = (blocks - 1) as nat;
        lemma_lanes4(a, b, p);
        let l0 = lane_sums(a, b, 4, p);
        let x = 4 * (blocks - 1);
        assert(l[0] == f(x) + l0[0]);
        assert(l[1] == f(x + 1) + l0[1]);
        assert(l[2] == f(x + 2) + l0[2]);
        assert(l[3] == f(x + 3) + l0[3]);
        assert(sum(x + 1, f) == sum(x, f) + f(x));
        assert(sum(x + 2, f) == sum(x + 1, f) + f(x + 1));
        assert(sum(x + 3, f) == sum(x + 2, f) + f(x + 2));
        assert(sum(x + 4, f) == sum(x + 3, f) + f(x + 3));
    } else {
        assert(sum(0, f) == 0real);
    }
}

/// In exact arithmetic the order of a dot product does not matter: eight lanes compute the inner
/// product.
pub proof fn lemma_lane_dot(a: Seq<real>, b: Seq<real>)
    ensures
        lane_dot(a, b) == inner(a, b),
{
    let blocks = (a.len() / 8) as nat;
    lemma_lanes8(a, b, blocks);
    lemma_running_dot(
        tree8(lane_sums(a, b, 8, blocks)),
        a,
        b,
        8 * blocks as int,
        a.len() as int,
    );
}

/// In exact arithmetic a double-width dot product is the inner product, with lanes or without.
pub proof fn lemma_wide_dot(lanes: bool, a: Seq<real>, b: Seq<real>)
    ensures
        wide_dot(lanes, a, b) == inner(a, b),
{
    if lanes {
        let blocks = (a.len() / 4) as nat;
        lemma_lanes4(a, b, blocks);
        lemma_running_dot(
            tree4(lane_sums(a, b, 4, blocks)),
            a,
            b,
            4 * blocks as int,
            a.len() as int,
        );
    } else {
        lemma_running_dot(0real, a, b, 0, a.len() as int);
        assert(sum(0, |i: int| a[i] * b[i]) == 0real);
    }
}

} // verus!
