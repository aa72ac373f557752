//! What rounding can do: how far results are from exact where every operation is close to exact.
//!
//! A law of this module is about any arithmetic, or any device, whose operations have a small
//! relative error: with `val` for the number that a stored one stands for, and a bound on the error
//! of each operation, it bounds the error of the result. With the bound 0 it is a law of exact
//! arithmetic. A computation that adds something large and takes it off again meets no such law.

use crate::algebra::{
    lemma_assoc, lemma_comm, lemma_negate, lemma_not_negative, lemma_one, lemma_regroup,
    lemma_spread, lemma_spread_sub, lemma_square, lemma_zero,
};
use crate::dense::lemma_place_of;
use crate::exact::{
    delta, lemma_root, lemma_sum_at_most, lemma_sum_ext, lemma_sum_scale, lemma_sum_split,
    lemma_sum_swap, lemma_sum_zero, sum,
};
use crate::grid::{cell, lemma_cell_div};
use crate::layer::{deviates, deviates_through, passes, passes_through, running_sum};
use crate::outcome::Outcomes;
use crate::scalar::{roots_exist, Number};
use crate::tensor::{unit_entry, Format, Grid};
use crate::tensor_laws::lemma_squares_order;
use vstd::prelude::*;

verus! {

/// The absolute value.
pub open spec fn abs(x: real) -> real {
    if x < 0real {
        -x
    } else {
        x
    }
}

/// `x` and `y` differ by at most `tol`.
pub open spec fn within(x: real, y: real, tol: real) -> bool {
    abs(x - y) <= tol
}

pub proof fn lemma_abs_times(x: real, y: real)
    ensures
        abs(x * y) == abs(x) * abs(y),
{
    lemma_negate(x, y);
    lemma_negate(x, -y);
    lemma_negate(y, x);
    lemma_comm(x, y);
    lemma_comm(x, -y);
    if x >= 0real && y >= 0real {
        lemma_not_negative(x, y);
    } else if x >= 0real {
        lemma_not_negative(x, -y);
    } else if y >= 0real {
        lemma_not_negative(-x, y);
    } else {
        lemma_not_negative(-x, -y);
    }
}

/// Factors of a common sign keep an order.
pub proof fn lemma_times_order(f: real, x: real, y: real)
    requires
        f >= 0real,
        x <= y,
    ensures
        f * x <= f * y,
{
    lemma_not_negative(f, y - x);
    lemma_spread_sub(f, y, x);
}

/// Sums whose terms are close are close.
pub proof fn lemma_sum_within(
    n: int,
    f: spec_fn(int) -> real,
    g: spec_fn(int) -> real,
    tol: spec_fn(int) -> real,
)
    requires
        forall|i: int| 0 <= i < n ==> within(#[trigger] f(i), g(i), tol(i)),
    ensures
        within(sum(n, f), sum(n, g), sum(n, tol)),
    decreases n,
{
    if n > 0 {
        lemma_sum_within(n - 1, f, g, tol);
        assert(within(f(n - 1), g(n - 1), tol(n - 1)));
    }
}

/// The products along two sequences, added up exactly.
pub open spec fn exact_dot<N>(val: spec_fn(N) -> real, xs: Seq<N>, ys: Seq<N>) -> real {
    sum(xs.len() as int, |i: int| val(xs[i]) * val(ys[i]))
}

/// The absolute values of the products along two sequences, added up exactly.
pub open spec fn abs_dot<N>(val: spec_fn(N) -> real, xs: Seq<N>, ys: Seq<N>) -> real {
    sum(xs.len() as int, |i: int| abs(val(xs[i])) * abs(val(ys[i])))
}

/// The products of a device of a row and a column are exact up to `g` times the sum of the absolute
/// values of the products.
pub open spec fn dots_within<N: Outcomes>(val: spec_fn(N) -> real, g: real) -> bool {
    forall|xs: Seq<N>, ys: Seq<N>, r: N|
        xs.len() == ys.len() && #[trigger] N::dotted(xs, ys, r) ==> within(
            val(r),
            exact_dot(val, xs, ys),
            g * abs_dot(val, xs, ys),
        )
}

/// The products of a device of two numbers are exact up to `e` of their absolute values.
pub open spec fn products_within<N: Outcomes>(val: spec_fn(N) -> real, e: real) -> bool {
    forall|x: N, y: N, r: N| #[trigger]
        N::product(x, y, r) ==> within(val(r), val(x) * val(y), e * abs(val(x) * val(y)))
}

/// Entry `(b, o)` of `x U diag(s) V^T`, by the numbers of the matrices.
pub open spec fn forward_exact<N>(
    val: spec_fn(N) -> real,
    x: Grid<N>,
    u: Grid<N>,
    s: Seq<N>,
    v: Grid<N>,
    b: int,
    o: int,
) -> real {
    sum(
        x.cols,
        |f: int|
            sum(
                s.len() as int,
                |i: int| val(x.at(b, f)) * (val(u.at(f, i)) * (val(s[i]) * val(v.at(o, i)))),
            ),
    )
}

/// The same with the absolute values of all numbers.
pub open spec fn forward_abs<N>(
    val: spec_fn(N) -> real,
    x: Grid<N>,
    u: Grid<N>,
    s: Seq<N>,
    v: Grid<N>,
    b: int,
    o: int,
) -> real {
    forward_exact(|n: N| abs(val(n)), x, u, s, v, b, o)
}

/// The sum over the inputs and the triplets, the triplets first.
proof fn lemma_forward_order<N>(
    val: spec_fn(N) -> real,
    x: Grid<N>,
    u: Grid<N>,
    s: Seq<N>,
    v: Grid<N>,
    b: int,
    o: int,
)
    ensures
        forward_exact(val, x, u, s, v, b, o) == sum(
            s.len() as int,
            |i: int|
                sum(x.cols, |f: int| val(x.at(b, f)) * val(u.at(f, i))) * (val(s[i]) * val(
                    v.at(o, i),
                )),
        ),
{
    let k = s.len() as int;
    let m = x.cols;
    let term = |f: int, i: int|
        val(x.at(b, f)) * (val(u.at(f, i)) * (val(s[i]) * val(v.at(o, i))));
    let by_input = |f: int| sum(k, |i: int| term(f, i));
    let given = |f: int|
        sum(
            s.len() as int,
            |i: int| val(x.at(b, f)) * (val(u.at(f, i)) * (val(s[i]) * val(v.at(o, i)))),
        );
    assert forall|f: int| 0 <= f < m implies #[trigger] given(f) == by_input(f) by {
        lemma_sum_ext(
            k,
            |i: int| val(x.at(b, f)) * (val(u.at(f, i)) * (val(s[i]) * val(v.at(o, i)))),
            |i: int| term(f, i),
        );
    }
    lemma_sum_ext(m, given, by_input);
    lemma_sum_swap(m, k, term);
    let by_triplet = |i: int| sum(m, |f: int| term(f, i));
    let want = |i: int|
        sum(x.cols, |f: int| val(x.at(b, f)) * val(u.at(f, i))) * (val(s[i]) * val(v.at(o, i)));
    assert forall|i: int| 0 <= i < k implies #[trigger] by_triplet(i) == want(i) by {
        let sv = val(s[i]) * val(v.at(o, i));
        let xu = |f: int| val(x.at(b, f)) * val(u.at(f, i));
        lemma_sum_scale(m, xu, sv);
        lemma_comm(sum(m, xu), sv);
        let p = |f: int| sv * xu(f);
        let q = |f: int| term(f, i);
        assert forall|f: int| 0 <= f < m implies #[trigger] p(f) == q(f) by {
            lemma_comm(sv, xu(f));
            lemma_assoc(val(x.at(b, f)), val(u.at(f, i)), sv);
        }
        lemma_sum_ext(m, p, q);
    }
    lemma_sum_ext(k, by_triplet, want);
}

/// A product with a factor that is not exact, rounded once more.
proof fn lemma_scaled_within(
    h: real,
    exact: real,
    size: real,
    s: real,
    p: real,
    g: real,
    e: real,
)
    requires
        0real <= g,
        0real <= e,
        abs(exact) <= size,
        within(h, exact, g * size),
        within(p, h * s, e * abs(h * s)),
    ensures
        within(p, exact * s, ((1real + g) * (1real + e) - 1real) * (size * abs(s))),
        abs(p) <= ((1real + g) * (1real + e)) * (size * abs(s)),
{
    let t = abs(s);
    let gs = g * size;
    let st = size * t;
    // |h| <= (1 + g) size
    let big = (1real + g) * size;
    lemma_comm(1real + g, size);
    lemma_spread(size, 1real, g);
    lemma_one(size);
    lemma_comm(size, g);
    assert(big == size + gs);
    assert(abs(h) <= big);
    // |h s| <= (1 + g) size |s|
    lemma_abs_times(h, s);
    lemma_comm(abs(h), t);
    lemma_comm(big, t);
    lemma_times_order(t, abs(h), big);
    let c = 1real + g;
    lemma_assoc(c, size, t);
    assert(abs(h * s) <= c * st);
    lemma_times_order(e, abs(h * s), c * st);
    // |h s - exact s| <= g size |s|
    lemma_comm(h, s);
    lemma_comm(exact, s);
    lemma_spread_sub(s, h, exact);
    lemma_abs_times(s, h - exact);
    lemma_times_order(t, abs(h - exact), gs);
    lemma_comm(t, gs);
    lemma_assoc(g, size, t);
    assert(abs(h * s - exact * s) <= g * st);
    // e (1 + g) + g = (1 + g) (1 + e) - 1
    let ce = c * (1real + e);
    lemma_spread(c, 1real, e);
    lemma_one(c);
    lemma_comm(c, e);
    lemma_assoc(e, c, st);
    let ec = e * c;
    assert(ce - 1real == ec + g);
    lemma_comm(ec + g, st);
    lemma_spread(st, ec, g);
    lemma_comm(st, ec);
    lemma_comm(st, g);
    assert((ce - 1real) * st == ec * st + g * st);
    // |p| <= |h s| + e |h s|
    lemma_comm(ce, st);
    lemma_spread(st, c, ec);
    lemma_comm(st, c);
    assert(ce == c + ec);
}

/// The forward pass on a device that rounds: where the products of matrices are exact up to `g`
/// and those of two numbers up to `e`, every entry of `y` is that of `x U diag(s) V^T`, up to
/// `(1 + g)^2 (1 + e) - 1` times the same sum of the absolute values. This is so for every number
/// of rows, inputs, outputs and triplets.
pub proof fn law_forward_within<N: Outcomes>(
    val: spec_fn(N) -> real,
    g: real,
    e: real,
    x: Grid<N>,
    u: Grid<N>,
    s: Seq<N>,
    v: Grid<N>,
    y: Grid<N>,
    b: int,
    o: int,
)
    requires
        0real <= g,
        0real <= e,
        dots_within(val, g),
        products_within(val, e),
        x.wf(),
        u.wf(),
        v.wf(),
        x.cols == u.rows,
        u.cols == v.cols,
        s.len() == u.cols,
        passes(x, u, s, v, y),
        0 <= b < x.rows,
        0 <= o < v.rows,
    ensures
        y.sized(x.rows, v.rows),
        within(
            val(y.at(b, o)),
            forward_exact(val, x, u, s, v, b, o),
            ((1real + g) * (1real + e) * (1real + g) - 1real) * forward_abs(val, x, u, s, v, b, o),
        ),
{
    let (h, p) = choose|h: Grid<N>, p: Grid<N>| passes_through(x, u, s, v, h, p, y);
    let k = u.cols;
    let m = u.rows;
    let size = |n: N| abs(val(n));
    let ce = (1real + g) * (1real + e);
    let c1 = ce - 1real;
    // The entries of x U, exactly, and with absolute values.
    let xu = |i: int| sum(m, |f: int| val(x.at(b, f)) * val(u.at(f, i)));
    let axu = |i: int| sum(m, |f: int| size(x.at(b, f)) * size(u.at(f, i)));
    let sv = |i: int| val(s[i]) * val(v.at(o, i));
    let asv = |i: int| size(s[i]) * size(v.at(o, i));
    let exact = |i: int| xu(i) * sv(i);
    let bound = |i: int| axu(i) * asv(i);
    let pv = |i: int| val(p.row(b)[i]) * val(v.row(o)[i]);
    let apv = |i: int| abs(val(p.row(b)[i])) * abs(val(v.row(o)[i]));
    let near = |i: int| c1 * bound(i);
    let most = |i: int| ce * bound(i);
    assert(c1 >= 0real && ce >= 0real) by {
        lemma_not_negative(1real + g, 1real + e);
        lemma_spread(1real + g, 1real, e);
        lemma_one(1real + g);
        lemma_not_negative(1real + g, e);
    }
    assert forall|i: int| 0 <= i < k implies within(#[trigger] pv(i), exact(i), near(i)) && apv(i)
        <= most(i) by {
        let (hi, pi, si, vi) = (val(h.at(b, i)), val(p.at(b, i)), val(s[i]), val(v.at(o, i)));
        assert(N::dotted(x.row(b), u.column(i), h.at(b, i)));
        assert(N::product(h.at(b, i), s[i], p.at(b, i)));
        lemma_sum_ext(
            m,
            |f: int| val(x.row(b)[f]) * val(u.column(i)[f]),
            |f: int| val(x.at(b, f)) * val(u.at(f, i)),
        );
        lemma_sum_ext(
            m,
            |f: int| abs(val(x.row(b)[f])) * abs(val(u.column(i)[f])),
            |f: int| size(x.at(b, f)) * size(u.at(f, i)),
        );
        lemma_abs_sum(
            m,
            |f: int| val(x.at(b, f)) * val(u.at(f, i)),
            |f: int| size(x.at(b, f)) * size(u.at(f, i)),
            val,
            x,
            u,
            b,
            i,
        );
        lemma_scaled_within(hi, xu(i), axu(i), si, pi, g, e);
        // Times the entry of V.
        let t = abs(vi);
        let a1 = axu(i) * abs(si);
        assert(p.row(b)[i] == p.at(b, i));
        assert(v.row(o)[i] == v.at(o, i));
        lemma_assoc(axu(i), abs(si), t);
        assert(a1 * t == bound(i));
        lemma_assoc(xu(i), si, vi);
        lemma_comm(pi, vi);
        lemma_comm(xu(i) * si, vi);
        lemma_spread_sub(vi, pi, xu(i) * si);
        lemma_abs_times(vi, pi - xu(i) * si);
        lemma_times_order(t, abs(pi - xu(i) * si), c1 * a1);
        lemma_comm(t, c1 * a1);
        lemma_assoc(c1, a1, t);
        lemma_comm(abs(pi), t);
        lemma_times_order(t, abs(pi), ce * a1);
        lemma_comm(t, ce * a1);
        lemma_assoc(ce, a1, t);
    }
    lemma_sum_within(k, pv, exact, near);
    assert forall|i: int| 0 <= i < k implies #[trigger] apv(i) <= most(i) by {
        assert(within(pv(i), exact(i), near(i)) && apv(i) <= most(i));
    }
    lemma_sum_at_most(k, apv, most);
    lemma_sum_scale(k, bound, c1);
    lemma_sum_ext(k, near, |i: int| c1 * bound(i));
    lemma_sum_scale(k, bound, ce);
    lemma_sum_ext(k, most, |i: int| ce * bound(i));
    let total = sum(k, bound);
    assert(N::dotted(p.row(b), v.row(o), y.at(b, o)));
    lemma_sum_ext(k, pv, |i: int| val(p.row(b)[i]) * val(v.row(o)[i]));
    lemma_sum_ext(k, apv, |i: int| abs(val(p.row(b)[i])) * abs(val(v.row(o)[i])));
    lemma_times_order(g, sum(k, apv), ce * total);
    // g (1 + g) (1 + e) + (1 + g) (1 + e) - 1
    let cg = ce * (1real + g);
    lemma_spread(ce, 1real, g);
    lemma_one(ce);
    lemma_comm(ce, g);
    lemma_assoc(g, ce, total);
    let gc = g * ce;
    assert(cg - 1real == c1 + gc);
    lemma_comm(c1 + gc, total);
    lemma_spread(total, c1, gc);
    lemma_comm(total, c1);
    lemma_comm(total, gc);
    // In the order of the statement.
    lemma_forward_order(val, x, u, s, v, b, o);
    lemma_forward_order(size, x, u, s, v, b, o);
    let e1 = |i: int|
        sum(x.cols, |f: int| val(x.at(b, f)) * val(u.at(f, i))) * (val(s[i]) * val(v.at(o, i)));
    lemma_sum_ext(k, exact, e1);
    let b1 = |i: int|
        sum(x.cols, |f: int| size(x.at(b, f)) * size(u.at(f, i))) * (size(s[i]) * size(v.at(o, i)));
    lemma_sum_ext(k, bound, b1);
}

/// The absolute value of a product of a row and a column is at most that of the absolute values.
proof fn lemma_abs_sum<N>(
    m: int,
    f: spec_fn(int) -> real,
    g: spec_fn(int) -> real,
    val: spec_fn(N) -> real,
    x: Grid<N>,
    u: Grid<N>,
    b: int,
    i: int,
)
    requires
        forall|j: int| 0 <= j < m ==> #[trigger] f(j) == val(x.at(b, j)) * val(u.at(j, i)),
        forall|j: int|
            0 <= j < m ==> #[trigger] g(j) == abs(val(x.at(b, j))) * abs(val(u.at(j, i))),
    ensures
        abs(sum(m, f)) <= sum(m, g),
{
    let none = |j: int| 0real;
    assert forall|j: int| 0 <= j < m implies within(#[trigger] f(j), none(j), g(j)) by {
        lemma_abs_times(val(x.at(b, j)), val(u.at(j, i)));
        assert(g(j) == abs(f(j)));
    }
    lemma_sum_within(m, f, none, g);
    lemma_sum_zero(m, none);
}

/// `b` to the power `n`.
pub open spec fn power(b: real, n: int) -> real
    decreases n,
{
    if n <= 0 {
        1real
    } else {
        power(b, n - 1) * b
    }
}

pub proof fn lemma_power(b: real, n: int)
    requires
        b >= 0real,
    ensures
        power(b, n) >= 0real,
    decreases n,
{
    if n > 0 {
        lemma_power(b, n - 1);
        lemma_not_negative(power(b, n - 1), b);
    }
}

/// An arithmetic whose operations are exact up to `eps` of their results: that of machine numbers
/// as long as nothing becomes too large or too small for them.
pub open spec fn accurate<T: Number>(val: spec_fn(T) -> real, eps: real) -> bool {
    &&& val(T::nought()) == 0real
    &&& val(T::unit()) == 1real
    &&& forall|x: T, y: T|
        within(
            val(#[trigger] x.plus(y)),
            val(x) + val(y),
            eps * abs(val(x) + val(y)),
        )
    &&& forall|x: T, y: T|
        within(
            val(#[trigger] x.minus(y)),
            val(x) - val(y),
            eps * abs(val(x) - val(y)),
        )
    &&& forall|x: T, y: T|
        within(
            val(#[trigger] x.times(y)),
            val(x) * val(y),
            eps * abs(val(x) * val(y)),
        )
    &&& forall|x: T, y: T|
        val(y) != 0real ==> within(
            val(#[trigger] x.over(y)),
            val(x) / val(y),
            eps * abs(val(x) / val(y)),
        )
    &&& forall|x: T, y: T, z: T|
        within(
            val(#[trigger] x.fused(y, z)),
            val(x) * val(y) + val(z),
            eps * abs(val(x) * val(y) + val(z)),
        )
    &&& forall|x: T|
        val(x) >= 0real ==> within(
            val(#[trigger] x.root()),
            val(x).root(),
            eps * val(x).root(),
        )
    &&& forall|x: T| val(#[trigger] x.negated()) == -val(x)
    &&& forall|x: T| val(#[trigger] x.magnitude()) == abs(val(x))
    &&& forall|x: T| val(x) > 0real ==> val(#[trigger] x.sign()) == 1real
    &&& forall|x: T| val(x) < 0real ==> val(#[trigger] x.sign()) == -1real
    &&& forall|x: T| val(#[trigger] x.sign()) == 1real || val(x.sign()) == -1real
    &&& forall|n: usize|
        within(val(#[trigger] T::counted(n)), n as real, eps * (n as real))
    &&& forall|n: u32|
        within(val(#[trigger] T::tenth_pow(n)), real::tenth_pow(n), eps * real::tenth_pow(n))
    &&& forall|x: T, y: T| #[trigger] x.below(y) == (val(x) < val(y))
    &&& forall|x: T, y: T| #[trigger] x.at_most(y) == (val(x) <= val(y))
    &&& forall|x: T, y: T| #[trigger] x.same(y) == (val(x) == val(y))
    &&& forall|x: T, y: T| #[trigger] x.larger(y) == (if val(x) < val(y) {
        y
    } else {
        x
    })
}

/// The mathematical numbers are such an arithmetic, with no error.
pub proof fn law_exact_is_accurate()
    ensures
        accurate::<real>(|x: real| x, 0real),
{
    let val = |x: real| x;
    assert forall|x: real, y: real|
        within(val(#[trigger] x.plus(y)), val(x) + val(y), 0real * abs(val(x) + val(y))) by {
        lemma_zero(abs(x + y));
    }
    assert forall|x: real, y: real|
        within(val(#[trigger] x.minus(y)), val(x) - val(y), 0real * abs(val(x) - val(y))) by {
        lemma_zero(abs(x - y));
    }
    assert forall|x: real, y: real|
        within(val(#[trigger] x.times(y)), val(x) * val(y), 0real * abs(val(x) * val(y))) by {
        lemma_zero(abs(x * y));
    }
    assert forall|x: real, y: real| val(y) != 0real implies within(
        val(#[trigger] x.over(y)),
        val(x) / val(y),
        0real * abs(val(x) / val(y)),
    ) by {
        lemma_zero(abs(x / y));
    }
    assert forall|x: real, y: real, z: real|
        within(
            val(#[trigger] x.fused(y, z)),
            val(x) * val(y) + val(z),
            0real * abs(val(x) * val(y) + val(z)),
        ) by {
        lemma_zero(abs(x * y + z));
    }
    assert forall|x: real| val(x) >= 0real implies within(
        val(#[trigger] x.root()),
        val(x).root(),
        0real * val(x).root(),
    ) by {
        lemma_zero(x.root());
    }
    assert forall|n: usize|
        within(val(#[trigger] real::counted(n)), n as real, 0real * (n as real)) by {
        lemma_zero(n as real);
    }
    assert forall|n: u32|
        within(
            val(#[trigger] real::tenth_pow(n)),
            real::tenth_pow(n),
            0real * real::tenth_pow(n),
        ) by {
        lemma_zero(real::tenth_pow(n));
    }
}

/// What a device makes of differences is exact up to `e`, and so it is with squares; the numbers 0
/// and 1 are what they are.
pub open spec fn squares_within<N: Outcomes>(val: spec_fn(N) -> real, e: real) -> bool {
    &&& forall|x: N, y: N, r: N| #[trigger]
        N::difference(x, y, r) ==> within(val(r), val(x) - val(y), e * abs(val(x) - val(y)))
    &&& forall|x: N, r: N| #[trigger]
        N::powered(x, 2, r) ==> within(val(r), val(x) * val(x), e * (val(x) * val(x)))
    &&& forall|f: Format, n: int|
        0 <= n <= 1 ==> val(#[trigger] N::whole(f, n)) == n as real
}

/// The cube of `b`.
pub open spec fn cube(b: real) -> real {
    (b * b) * b
}

/// The square of a difference, with an error of each.
proof fn lemma_square_within(x: real, d: real, q: real, e: real)
    requires
        0real <= e <= 1real,
        within(d, x, e * abs(x)),
        within(q, d * d, e * (d * d)),
    ensures
        cube(1real - e) * (x * x) <= q <= cube(1real + e) * (x * x),
        0real <= q,
{
    let a = abs(x);
    let (lo, hi) = (1real - e, 1real + e);
    let ea = e * a;
    // lo |x| <= |d| <= hi |x|
    lemma_comm(lo, a);
    lemma_comm(hi, a);
    lemma_spread_sub(a, 1real, e);
    lemma_spread(a, 1real, e);
    lemma_one(a);
    lemma_comm(a, e);
    let b = abs(d);
    lemma_not_negative(lo, a);
    lemma_not_negative(hi, a);
    assert(lo * a <= b <= hi * a);
    lemma_squares_order(lo * a, b);
    lemma_squares_order(b, hi * a);
    lemma_regroup(lo, a, lo, a);
    lemma_regroup(hi, a, hi, a);
    lemma_abs_times(x, x);
    lemma_abs_times(d, d);
    lemma_square(x);
    lemma_square(d);
    let (xx, dd) = (x * x, d * d);
    assert(a * a == xx && b * b == dd);
    // lo d^2 <= q <= hi d^2
    lemma_comm(lo, dd);
    lemma_comm(hi, dd);
    lemma_spread_sub(dd, 1real, e);
    lemma_spread(dd, 1real, e);
    lemma_one(dd);
    lemma_comm(dd, e);
    assert(lo * dd <= q <= hi * dd);
    lemma_times_order(lo, (lo * lo) * xx, dd);
    lemma_times_order(hi, dd, (hi * hi) * xx);
    lemma_assoc(lo, lo * lo, xx);
    lemma_assoc(hi, hi * hi, xx);
    lemma_comm(lo, lo * lo);
    lemma_comm(hi, hi * hi);
    lemma_not_negative(lo, dd);
}

/// A running sum of numbers that are not negative.
proof fn lemma_running_within<T: Number>(val: spec_fn(T) -> real, eps: real, xs: Seq<T>, n: int)
    requires
        accurate(val, eps),
        0real <= eps <= 1real,
        0 <= n <= xs.len(),
        forall|i: int| 0 <= i < n ==> val(#[trigger] xs[i]) >= 0real,
    ensures
        ({
            let total = sum(n, |i: int| val(xs[i]));
            &&& total >= 0real
            &&& power(1real - eps, n) * total <= val(running_sum(T::nought(), xs, n)) <= power(
                1real + eps,
                n,
            ) * total
            &&& 0real <= val(running_sum(T::nought(), xs, n))
        }),
    decreases n,
{
    let f = |i: int| val(xs[i]);
    let total = sum(n, f);
    let (lo, hi) = (1real - eps, 1real + eps);
    lemma_power(lo, n);
    lemma_power(hi, n);
    if n > 0 {
        lemma_running_within(val, eps, xs, n - 1);
        lemma_power(lo, n - 1);
        lemma_power(hi, n - 1);
        let before = running_sum(T::nought(), xs, n - 1);
        let (acc, x) = (val(before), val(xs[n - 1]));
        let t = sum(n - 1, f);
        let after = val(before.plus(xs[n - 1]));
        let y = acc + x;
        assert(abs(y) == y);
        // lo y <= after <= hi y
        lemma_comm(lo, y);
        lemma_comm(hi, y);
        lemma_spread_sub(y, 1real, eps);
        lemma_spread(y, 1real, eps);
        lemma_one(y);
        lemma_comm(y, eps);
        assert(lo * y <= after <= hi * y);
        let (pl, ph) = (power(lo, n - 1), power(hi, n - 1));
        // pl (t + x) <= y <= ph (t + x)
        lemma_power_sides(eps, n - 1);
        lemma_spread(pl, t, x);
        lemma_spread(ph, t, x);
        lemma_comm(pl, x);
        lemma_comm(ph, x);
        lemma_times_order(x, pl, 1real);
        lemma_times_order(x, 1real, ph);
        lemma_one(x);
        assert(pl * (t + x) <= y <= ph * (t + x));
        lemma_times_order(lo, pl * (t + x), y);
        lemma_times_order(hi, y, ph * (t + x));
        lemma_assoc(lo, pl, t + x);
        lemma_assoc(hi, ph, t + x);
        lemma_comm(lo, pl);
        lemma_comm(hi, ph);
        lemma_not_negative(lo, y);
        assert(total == t + x);
    } else {
        lemma_zero(1real);
    }
}

/// `(1 - eps)^n <= 1 <= (1 + eps)^n`.
proof fn lemma_power_sides(eps: real, n: int)
    requires
        0real <= eps <= 1real,
    ensures
        0real <= power(1real - eps, n) <= 1real,
        1real <= power(1real + eps, n),
    decreases n,
{
    if n > 0 {
        lemma_power_sides(eps, n - 1);
        let (pl, ph) = (power(1real - eps, n - 1), power(1real + eps, n - 1));
        lemma_spread_sub(pl, 1real, eps);
        lemma_spread(ph, 1real, eps);
        lemma_one(pl);
        lemma_one(ph);
        lemma_not_negative(pl, eps);
        lemma_not_negative(ph, eps);
        lemma_not_negative(pl, 1real - eps);
    }
}

/// The sum over a square buffer, line by line.
pub proof fn lemma_sum_cells(k: int, lines: int, f: spec_fn(int) -> real)
    requires
        0 <= k,
        0 <= lines,
    ensures
        sum(lines * k, f) == sum(lines, |i: int| sum(k, |j: int| f(cell(i, k, j)))),
    decreases lines,
{
    let g = |i: int| sum(k, |j: int| f(cell(i, k, j)));
    if lines > 0 {
        lemma_sum_cells(k, lines - 1, f);
        assert(lines * k == (lines - 1) * k + k && (lines - 1) * k >= 0) by (nonlinear_arith)
            requires
                lines > 0,
                k >= 0,
        ;
        lemma_sum_split(k, (lines - 1) * k, f);
        lemma_sum_ext(k, |j: int| f((lines - 1) * k + j), |j: int| f(cell(lines - 1, k, j)));
        assert(sum(lines, g) == sum(lines - 1, g) + g(lines - 1));
    } else {
        assert(lines * k == 0) by (nonlinear_arith)
            requires
                lines == 0,
        ;
    }
}

/// The squares of the entries of `G - I`, for a square matrix `G` of `k` rows.
pub open spec fn off_unit(k: int, gram: spec_fn(int, int) -> real) -> real {
    sum(
        k,
        |i: int| sum(k, |j: int| (gram(i, j) - delta(i, j)) * (gram(i, j) - delta(i, j))),
    )
}

/// How far columns are from orthonormal, measured on a device that rounds: there are numbers `G`,
/// each the inner product of two columns up to `g`, so that the square of the result is the sum of
/// the squares of the entries of `G - I`, up to a factor that is close to 1. With no errors the
/// result is the Frobenius norm of `m^T m - I`.
pub proof fn law_deviation_within<N: Outcomes, T: Number>(
    val: spec_fn(N) -> real,
    valt: spec_fn(T) -> real,
    read: spec_fn(N) -> T,
    g: real,
    e: real,
    eps: real,
    m: Grid<N>,
    err: T,
)
    requires
        roots_exist(),
        m.wf(),
        0real <= g,
        0real <= e <= 1real,
        0real <= eps <= 1real,
        dots_within(val, g),
        squares_within(val, e),
        accurate(valt, eps),
        forall|x: N| valt(#[trigger] read(x)) == val(x),
        deviates(read, m, err),
    ensures
        exists|gram: spec_fn(int, int) -> real|
            {
                &&& forall|i: int, j: int|
                    0 <= i < m.cols && 0 <= j < m.cols ==> within(
                        #[trigger] gram(i, j),
                        exact_dot(val, m.column(i), m.column(j)),
                        g * abs_dot(val, m.column(i), m.column(j)),
                    )
                &&& valt(err) >= 0real
                &&& (cube(1real - e) * power(1real - eps, m.cols * m.cols + 2)) * #[trigger]
                off_unit(m.cols, gram) <= valt(err) * valt(err)
                &&& valt(err) * valt(err) <= (cube(1real + e) * power(
                    1real + eps,
                    m.cols * m.cols + 2,
                )) * off_unit(m.cols, gram)
            },
{
    let k = m.cols;
    let (gm, diff, squares) = choose|gm: Grid<N>, diff: Grid<N>, squares: Grid<N>|
        #[trigger] deviates_through(m, gm, diff, squares) && err == running_sum(
            T::nought(),
            squares.cells.map_values(read),
            squares.cells.len() as int,
        ).root();
    let gram = |i: int, j: int| val(gm.at(i, j));
    assert forall|i: int, j: int| 0 <= i < k && 0 <= j < k implies within(
        #[trigger] gram(i, j),
        exact_dot(val, m.column(i), m.column(j)),
        g * abs_dot(val, m.column(i), m.column(j)),
    ) by {
        assert(N::dotted(m.column(i), m.column(j), gm.at(i, j)));
    }
    let n = k * k;
    let xs = squares.cells.map_values(read);
    let (cl, ch) = (cube(1real - e), cube(1real + e));
    let off = |x: int| {
        let (i, j) = (x / k, x % k);
        (gram(i, j) - delta(i, j)) * (gram(i, j) - delta(i, j))
    };
    let q = |x: int| valt(xs[x]);
    let low = |x: int| cl * off(x);
    let high = |x: int| ch * off(x);
    assert forall|x: int| 0 <= x < n implies low(x) <= #[trigger] q(x) && q(x) <= high(x) && q(x)
        >= 0real by {
        lemma_place_of(k, x);
        let (i, j) = (x / k, x % k);
        assert(squares.at(i, j) == squares.cells[x]);
        assert(xs[x] == read(squares.cells[x]));
        assert(N::difference(
            gm.at(i, j),
            N::whole(Format::Single, unit_entry(i, j)),
            diff.at(i, j),
        ));
        assert(N::powered(diff.at(i, j), 2, squares.at(i, j)));
        assert(val(N::whole(Format::Single, unit_entry(i, j))) == delta(i, j));
        lemma_square_within(
            gram(i, j) - delta(i, j),
            val(diff.at(i, j)),
            val(squares.at(i, j)),
            e,
        );
    }
    assert forall|x: int| 0 <= x < n implies valt(#[trigger] xs[x]) >= 0real by {
        assert(q(x) >= 0real);
    }
    lemma_running_within(valt, eps, xs, n);
    let total = sum(n, q);
    lemma_sum_ext(n, q, |x: int| valt(xs[x]));
    assert forall|x: int| 0 <= x < n implies #[trigger] low(x) <= q(x) by {
        assert(low(x) <= q(x));
    }
    lemma_sum_at_most(n, low, q);
    assert forall|x: int| 0 <= x < n implies #[trigger] q(x) <= high(x) by {}
    lemma_sum_at_most(n, q, high);
    lemma_sum_scale(n, off, cl);
    lemma_sum_scale(n, off, ch);
    lemma_sum_ext(n, low, |x: int| cl * off(x));
    lemma_sum_ext(n, high, |x: int| ch * off(x));
    let s = sum(n, off);
    assert(s == off_unit(k, gram)) by {
        lemma_sum_cells(k, k, off);
        let a = |i: int| sum(k, |j: int| off(cell(i, k, j)));
        let b = |i: int|
            sum(k, |j: int| (gram(i, j) - delta(i, j)) * (gram(i, j) - delta(i, j)));
        assert forall|i: int| 0 <= i < k implies #[trigger] a(i) == b(i) by {
            let c = |j: int| off(cell(i, k, j));
            let d = |j: int| (gram(i, j) - delta(i, j)) * (gram(i, j) - delta(i, j));
            assert forall|j: int| 0 <= j < k implies #[trigger] c(j) == d(j) by {
                lemma_cell_div(k, i, j);
            }
            lemma_sum_ext(k, c, d);
        }
        lemma_sum_ext(k, a, b);
    }
    // The root.
    let acc = running_sum(T::nought(), xs, n);
    let v = valt(acc);
    lemma_root(v);
    let root = v.root();
    let r = valt(err);
    assert(within(r, root, eps * root));
    let (lo, hi) = (1real - eps, 1real + eps);
    let (pl, ph) = (power(lo, n), power(hi, n));
    lemma_power_sides(eps, n);
    lemma_comm(lo, root);
    lemma_comm(hi, root);
    lemma_spread_sub(root, 1real, eps);
    lemma_spread(root, 1real, eps);
    lemma_one(root);
    lemma_comm(root, eps);
    lemma_not_negative(lo, root);
    assert(lo * root <= r <= hi * root);
    lemma_squares_order(lo * root, r);
    lemma_squares_order(r, hi * root);
    lemma_regroup(lo, root, lo, root);
    lemma_regroup(hi, root, hi, root);
    let rr = r * r;
    assert((lo * lo) * v <= rr <= (hi * hi) * v);
    // pl cl s <= v <= ph ch s
    lemma_times_order(pl, cl * s, total);
    lemma_times_order(ph, total, ch * s);
    lemma_not_negative(lo, lo);
    lemma_not_negative(hi, hi);
    lemma_times_order(lo * lo, pl * (cl * s), v);
    lemma_times_order(hi * hi, v, ph * (ch * s));
    lemma_four(lo, pl, cl, s);
    lemma_four(hi, ph, ch, s);
    assert(power(lo, n + 2) == (pl * lo) * lo) by {
        assert(power(lo, n + 2) == power(lo, n + 1) * lo);
    }
    assert(power(hi, n + 2) == (ph * hi) * hi) by {
        assert(power(hi, n + 2) == power(hi, n + 1) * hi);
    }
    assert(m.cols * m.cols + 2 == n + 2);
    assert((cl * power(lo, n + 2)) * off_unit(k, gram) <= rr);
}

/// Factors in another order.
proof fn lemma_four(l: real, p: real, c: real, s: real)
    ensures
        (l * l) * (p * (c * s)) == (c * ((p * l) * l)) * s,
{
    let ll = l * l;
    lemma_assoc(ll, p, c * s);
    lemma_comm(ll, p);
    lemma_assoc(p, l, l);
    let pll = p * ll;
    lemma_assoc(pll, c, s);
    lemma_comm(pll, c);
}

} // verus!
