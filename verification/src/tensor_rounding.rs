//! What rounding can do to the factorisation with matrix operations, on a device whose operations
//! have a small error: every step is close to the exact step on the numbers that it begins with.

use crate::algebra::{
    lemma_comm, lemma_negate, lemma_not_negative, lemma_one, lemma_over, lemma_spread,
    lemma_square,
};
use crate::error_laws::{
    abs, dots_within, lemma_abs_times, lemma_sum_within, power, products_within, squares_within,
    within,
};
use crate::exact::{
    inner, lemma_root, lemma_running_dot, lemma_sum_ext, lemma_sum_zero, sum,
};
use crate::house::{lesser, reflector};
use crate::lanes::running_dot;
use crate::outcome::Outcomes;
use crate::qr::{
    block_column, factors, is_top, reflects, steps_to, traces, QrStep, QrTrace, Reflection,
};
use crate::qr_rounding::{
    lemma_like_more, lemma_like_over, lemma_like_root, lemma_like_rounded, lemma_like_self, like,
};
use crate::ratio::{agree, lemma_agree_negated, lemma_agree_on, lemma_agree_plus, lemma_factor};
use crate::rounding_laws::{
    held, lemma_held_exact, lemma_held_minus, lemma_held_times, vals,
};
use crate::scalar::{roots_exist, Number};
use crate::tensor::{Format, Grid};
use vstd::prelude::*;

verus! {

/// A device whose products of matrices are exact up to `g` and whose other operations up to `e`,
/// with the factor `b` that goes with `e`: `1 / (1 - e)`, or more. Signs are exact. Numbers that
/// are equal are close, 1 and -1 are not close to 0, and what is close to 0 is at most `2 10^-8`.
pub open spec fn device<N: Outcomes>(
    val: spec_fn(N) -> real,
    g: real,
    e: real,
    b: real,
) -> bool {
    &&& 0real <= g
    &&& 0real <= e < 1real
    &&& b >= 1real
    &&& (1real - e) * b >= 1real
    &&& dots_within(val, g)
    &&& products_within(val, e)
    &&& squares_within(val, e)
    &&& forall|f: Format| val(#[trigger] N::whole(f, -1)) == -1real
    &&& forall|x: N, y: N, r: N| #[trigger]
        N::quotient(x, y, r) && val(y) != 0real ==> within(
            val(r),
            val(x) / val(y),
            e * abs(val(x) / val(y)),
        )
    &&& forall|x: N, r: N| #[trigger] N::opposite(x, r) ==> val(r) == -val(x)
    &&& forall|x: N, r: N| #[trigger]
        N::signed(x, r) ==> val(r) == if val(x) > 0real {
            1real
        } else if val(x) < 0real {
            -1real
        } else {
            0real
        }
    &&& forall|x: N, r: N| #[trigger]
        N::rooted(x, r) && val(x) >= 0real ==> within(val(r), val(x).root(), e * val(x).root())
    &&& forall|xs: Seq<N>, r: N| #[trigger]
        N::totalled(xs, r) && (forall|i: int| 0 <= i < xs.len() ==> val(#[trigger] xs[i]) >= 0real)
            ==> agree(val(r), sum(xs.len() as int, |i: int| val(xs[i])), b)
    &&& forall|x: N, r: N| #[trigger] N::scaled(x, 0, r) ==> val(r) == 0real
    &&& forall|x: N, r: N| #[trigger] N::shifted(x, 1, r) && val(x) == 0real ==> val(r) == 1real
    &&& forall|x: N, y: N, c: bool| #[trigger]
        N::near(x, y, c) && val(y) == 0real ==> {
            &&& val(x) == 0real ==> c
            &&& abs(val(x)) == 1real ==> !c
            &&& c ==> abs(val(x)) <= 2real * real::tenth_pow(8)
        }
}

/// `(1 + x) (1 + y) - 1`.
pub open spec fn joined(x: real, y: real) -> real {
    (1real + x) * (1real + y) - 1real
}

proof fn lemma_joined_sign(x: real, y: real)
    requires
        0real <= x,
        0real <= y,
    ensures
        0real <= joined(x, y),
        x <= joined(x, y),
{
    lemma_not_negative(x, y);
    lemma_spread(1real + x, 1real, y);
    lemma_one(1real + x);
    lemma_comm(1real + x, y);
    lemma_spread(y, 1real, x);
    lemma_one(y);
    lemma_comm(y, x);
}

/// A reflection of a block, rounded: every entry of the block is that of the exact reflection `x -
/// tau w (w^T x)` of the numbers, up to `(1 + g)^2 (1 + e)^2 - 1` of the absolute values of its
/// terms, and every other entry is as before.
pub proof fn law_reflects_rounded<N: Outcomes>(
    val: spec_fn(N) -> real,
    g: real,
    e: real,
    b: real,
    before: Grid<N>,
    i: int,
    j: int,
    w: Seq<N>,
    tau: N,
    by: Reflection<N>,
    after: Grid<N>,
    r: int,
    c: int,
)
    requires
        device(val, g, e, b),
        before.wf(),
        0 <= i < before.rows,
        0 <= j <= before.cols,
        0 <= r < before.rows,
        0 <= c < before.cols,
        w.len() == before.rows - i,
        reflects(before, i, j, w, tau, by, after),
    ensures
        after.sized(before.rows, before.cols),
        r < i || c < j ==> after.at(r, c) == before.at(r, c),
        r >= i && c >= j ==> held(
            val(after.at(r, c)),
            val(before.at(r, c)) - val(tau) * (val(w[r - i]) * sum(
                before.rows - i,
                |x: int| val(w[x]) * val(before.at(i + x, c)),
            )),
            abs(val(before.at(r, c))) + abs(val(tau)) * (abs(val(w[r - i])) * sum(
                before.rows - i,
                |x: int| abs(val(w[x])) * abs(val(before.at(i + x, c))),
            )),
            joined(joined(joined(g, g), e), e),
        ),
{
    if r < i || c < j {
        assert(after.at(r, c) == before.at(r, c));
    } else {
        let n = before.rows - i;
        let col = block_column(before, i, j, c - j);
        let f = |x: int| val(w[x]) * val(before.at(i + x, c));
        let h = |x: int| abs(val(w[x])) * abs(val(before.at(i + x, c)));
        let d = by.across[c - j];
        assert(N::dotted(w, col, d));
        lemma_sum_ext(n, |x: int| val(w[x]) * val(col[x]), f);
        lemma_sum_ext(n, |x: int| abs(val(w[x])) * abs(val(col[x])), h);
        let (exact, size) = (sum(n, f), sum(n, h));
        assert(abs(exact) <= size) by {
            let none = |x: int| 0real;
            assert forall|x: int| 0 <= x < n implies within(#[trigger] f(x), none(x), h(x)) by {
                lemma_abs_times(val(w[x]), val(before.at(i + x, c)));
            }
            lemma_sum_within(n, f, none, h);
            lemma_sum_zero(n, none);
        }
        assert(held(val(d), exact, size, g));
        // w (w^T x)
        let wr = w[r - i];
        let o = by.outer.at(r - i, c - j);
        let (p, q) = (seq![wr], seq![d]);
        assert(N::dotted(p, q, o));
        let pq = |x: int| val(p[x]) * val(q[x]);
        let apq = |x: int| abs(val(p[x])) * abs(val(q[x]));
        assert(sum(1, pq) == sum(0, pq) + pq(0));
        assert(sum(1, apq) == sum(0, apq) + apq(0));
        lemma_abs_times(val(wr), val(d));
        assert(within(val(o), val(wr) * val(d), g * abs(val(wr) * val(d))));
        lemma_held_times(val(d), exact, size, g, val(wr), val(o), g);
        let e2 = joined(g, g);
        lemma_joined_sign(g, g);
        // tau w (w^T x)
        let u = by.update.at(r - i, c - j);
        assert(N::product(o, tau, u));
        lemma_comm(val(o), val(tau));
        lemma_held_times(
            val(o),
            val(wr) * exact,
            abs(val(wr)) * size,
            e2,
            val(tau),
            val(u),
            e,
        );
        let e3 = joined(e2, e);
        lemma_joined_sign(e2, e);
        let x = val(before.at(r, c));
        assert(N::difference(before.at(r, c), u, after.at(r, c)));
        lemma_held_exact(x, e3);
        lemma_held_minus(
            x,
            x,
            abs(x),
            val(u),
            val(tau) * (val(wr) * exact),
            abs(val(tau)) * (abs(val(wr)) * size),
            val(after.at(r, c)),
            e3,
            e,
        );
    }
}

/// Sums of numbers that agree and are not negative.
proof fn lemma_like_sum(
    n: int,
    f: spec_fn(int) -> real,
    g: spec_fn(int) -> real,
    b: real,
    k: int,
)
    requires
        b >= 1real,
        0 <= k,
        forall|i: int| 0 <= i < n ==> like(#[trigger] f(i), g(i), b, k) && g(i) >= 0real,
    ensures
        like(sum(n, f), sum(n, g), b, k),
        sum(n, g) >= 0real,
    decreases n,
{
    if n > 0 {
        lemma_like_sum(n - 1, f, g, b, k);
        assert(like(f(n - 1), g(n - 1), b, k));
        lemma_agree_plus(
            sum(n - 1, f),
            sum(n - 1, g),
            f(n - 1),
            g(n - 1),
            power(b, k),
        );
    } else {
        lemma_like_self(0real, b);
        lemma_like_more(0real, 0real, b, 0, k);
    }
}

/// Step `i` of the R pass with matrix operations, rounded. The norm agrees with that of the numbers
/// of the column. Where it was taken for 0, it is close to it and nothing is reflected. Elsewhere
/// the factor and the vector of the reflection agree with those of the exact reflector of the
/// numbers.
pub proof fn law_step_rounded<N: Outcomes>(
    val: spec_fn(N) -> real,
    g: real,
    e: real,
    b: real,
    f: Format,
    before: Grid<N>,
    i: int,
    t: QrStep<N>,
    after: Grid<N>,
)
    requires
        roots_exist(),
        device(val, g, e, b),
        before.wf(),
        0 <= i < before.rows,
        i < before.cols,
        steps_to(f, before, i, t, after),
    ensures
        ({
            let v = vals(val, before.column(i).skip(i));
            let h = reflector(v);
            let rows = before.rows - i;
            &&& t.w(f).len() == rows
            &&& h.tail.len() == rows - 1
            &&& like(val(t.norm), inner(v, v).root(), b, 3)
            &&& t.no_norm ==> {
                &&& abs(val(t.norm)) <= 2real * real::tenth_pow(8)
                &&& val(t.tau(f)) == 0real
                &&& forall|r: int| 0 <= r < rows ==> val(#[trigger] t.w(f)[r]) == 0real
            }
            &&& !t.no_norm ==> {
                &&& inner(v, v).root() > 0real
                &&& like(val(t.tau(f)), h.tau, b, 10)
                &&& val(t.w(f)[0]) == 1real
                &&& forall|r: int|
                    1 <= r < rows ==> like(val(#[trigger] t.w(f)[r]), h.tail[r - 1], b, 6)
            }
            &&& reflects(before, i, i, t.w(f), t.tau(f), t.reflection, after)
        }),
{
    let rows = before.rows - i;
    let col = block_column(before, i, i, 0);
    let v = vals(val, before.column(i).skip(i));
    let w = vals(val, col);
    assert(w =~= v);
    let h = reflector(v);
    // The norm.
    let q = |r: int| val(t.squares[r]);
    let vv = |r: int| v[r] * v[r];
    assert forall|r: int| 0 <= r < rows implies like(#[trigger] q(r), vv(r), b, 1) && vv(r)
        >= 0real by {
        assert(N::powered(col[r], 2, t.squares[r]));
        assert(val(col[r]) == v[r]);
        lemma_square(v[r]);
        lemma_like_self(vv(r), b);
        lemma_like_rounded(q(r), vv(r), vv(r), e, b, 0);
    }
    lemma_like_sum(rows, q, vv, b, 1);
    assert forall|r: int| 0 <= r < t.squares.len() implies val(#[trigger] t.squares[r]) >= 0real by {
        assert(like(q(r), vv(r), b, 1));
    }
    lemma_sum_ext(rows, q, |r: int| val(t.squares[r]));
    let total = sum(rows, vv);
    assert(inner(v, v) == total);
    let n2 = val(t.norm2);
    lemma_factor(b, 1);
    lemma_one(b);
    lemma_agree_on(n2, sum(rows, q), total, b, power(b, 1));
    lemma_comm(b, power(b, 1));
    assert(like(n2, total, b, 2));
    lemma_root(n2);
    lemma_root(total);
    lemma_like_root(n2, total, b, 2);
    let root = total.root();
    assert(abs(n2.root()) == n2.root());
    assert(N::rooted(t.norm2, t.norm));
    lemma_like_rounded(val(t.norm), n2.root(), root, e, b, 2);
    let norm = val(t.norm);
    assert(N::near(t.norm, N::whole(f, 0), t.no_norm));
    lemma_running_dot(0real, v, v, 0, rows);
    assert(sum(0, |r: int| v[r] * v[r]) == 0real);
    assert(running_dot(0real, v, v, 0, rows) == total);
    if !t.no_norm {
        assert(norm != 0real);
        // The sign.
        let v0 = v[0];
        assert(val(col[0]) == v0);
        let sg: real = if v0 < 0real {
            1real
        } else {
            -1real
        };
        assert(val(t.sign(f)) == sg) by {
            assert(N::signed(col[0], t.sign0));
            assert(N::opposite(t.sign0, t.sign1));
            assert(N::near(t.sign1, N::whole(f, 0), t.no_sign));
        }
        lemma_one(norm);
        lemma_one(root);
        assert(like(norm * sg, root * sg, b, 3)) by {
            if v0 < 0real {
            } else {
                lemma_agree_negated(norm, root, power(b, 3));
            }
        }
        assert(N::product(t.norm, t.sign(f), t.beta));
        lemma_like_rounded(val(t.beta), norm * sg, root * sg, e, b, 3);
        // The first entry.
        let exact0 = v0 - root * sg;
        lemma_like_self(v0, b);
        lemma_like_more(v0, v0, b, 0, 4);
        lemma_agree_negated(val(t.beta), root * sg, power(b, 4));
        lemma_agree_plus(v0, v0, -val(t.beta), -(root * sg), power(b, 4));
        assert(N::difference(col[0], t.beta, t.u0));
        lemma_like_rounded(val(t.u0), v0 - val(t.beta), exact0, e, b, 4);
        lemma_comm(root, sg);
        // The factor.
        let u0 = val(t.u0);
        assert(N::quotient(t.u0, t.norm, t.ratio));
        lemma_like_over(u0, exact0, 5, norm, root, 3, b);
        lemma_like_rounded(val(t.ratio), u0 / norm, exact0 / root, e, b, 8);
        let (ratio, er) = (val(t.ratio), exact0 / root);
        lemma_one(ratio);
        lemma_one(er);
        assert(like(ratio * sg, er * sg, b, 9)) by {
            if v0 < 0real {
            } else {
                lemma_agree_negated(ratio, er, power(b, 9));
            }
        }
        assert(N::product(t.ratio, t.sign(f), t.turned));
        lemma_like_rounded(val(t.turned), ratio * sg, er * sg, e, b, 9);
        assert(N::opposite(t.turned, t.factor));
        lemma_agree_negated(val(t.turned), er * sg, power(b, 10));
        assert(h.tau == -(er * sg)) by {
            lemma_over(exact0, root);
            lemma_over(-exact0, root);
            let inv = 1real / root;
            lemma_comm(inv, exact0);
            lemma_comm(inv, -exact0);
            lemma_negate(exact0, inv);
            assert((-exact0) / root == -er);
            lemma_negate(er, sg);
        }
        // The vector.
        assert(exact0 != 0real);
        assert(N::scaled(col[0], 0, t.lead0));
        assert(N::shifted(t.lead0, 1, t.lead));
        assert forall|r: int| 1 <= r < rows implies like(
            val(#[trigger] t.w(f)[r]),
            h.tail[r - 1],
            b,
            6,
        ) by {
            assert(N::quotient(col[r], t.u0, t.quotients[r]));
            assert(val(col[r]) == v[r]);
            lemma_like_self(v[r], b);
            lemma_like_over(v[r], v[r], 0, u0, exact0, 5, b);
            lemma_like_rounded(val(t.quotients[r]), v[r] / u0, v[r] / exact0, e, b, 5);
            assert(h.tail[r - 1] == v[r] / exact0);
        }
    }
}

/// The values `tr` lead from the matrix `a` to the factors `q` and `r`: the R pass begins with the
/// matrix and takes `min(rows, cols)` steps, the Q pass leads the first columns of the unit matrix
/// through the same reflections, the last one first, and the factors are what they end with.
pub open spec fn goes_through<N: Outcomes>(
    f: Format,
    a: Grid<N>,
    reduced: bool,
    q: Grid<N>,
    r: Grid<N>,
    tr: QrTrace<N>,
) -> bool {
    let k = if a.rows <= a.cols {
        a.rows
    } else {
        a.cols
    };
    let full = tr.rs[k];
    &&& tr.steps.len() == k
    &&& tr.rs.len() == k + 1
    &&& tr.rs[0] == a
    &&& forall|i: int|
        0 <= i < k ==> steps_to(f, tr.rs[i], i, #[trigger] tr.steps[i], tr.rs[i + 1])
    &&& tr.qs.len() == k + 1
    &&& tr.backs.len() == k
    &&& tr.qs[k].sized(a.rows, k)
    &&& forall|x: int, y: int|
        0 <= x < a.rows && 0 <= y < k ==> #[trigger] tr.qs[k].at(x, y) == N::whole(
            f,
            if x == y {
                1
            } else {
                0
            },
        )
    &&& forall|i: int|
        0 <= i < k ==> reflects(
            tr.qs[i + 1],
            i,
            0,
            tr.steps[i].w(f),
            tr.steps[i].tau(f),
            #[trigger] tr.backs[i],
            tr.qs[i],
        )
    &&& q == tr.qs[0]
    &&& r.cols == full.cols
    &&& r.rows == if reduced && a.rows > a.cols {
        a.cols
    } else {
        a.rows
    }
    &&& forall|x: int, y: int|
        0 <= x < r.rows && 0 <= y < r.cols ==> #[trigger] r.at(x, y) == full.at(x, y)
}

/// The whole factorisation is made of its steps and reflections, so that what [`law_step_rounded`]
/// and [`law_reflects_rounded`] say holds of every one of them.
pub proof fn law_factors_steps<N: Outcomes>(
    f: Format,
    a: Grid<N>,
    reduced: bool,
    q: Grid<N>,
    r: Grid<N>,
)
    requires
        a.wf(),
        factors(f, a, reduced, q, r),
    ensures
        exists|tr: QrTrace<N>| #[trigger] goes_through(f, a, reduced, q, r, tr),
{
    let k = lesser(a.rows, a.cols);
    let tr = choose|tr: QrTrace<N>|
        {
            &&& #[trigger] traces(f, a, tr)
            &&& q == tr.qs[0]
            &&& is_top(tr.rs[lesser(a.rows, a.cols)], reduced, r)
        };
    lemma_rs_shape(f, a, tr, k);
    assert(goes_through(f, a, reduced, q, r, tr));
}

/// The steps keep the shape.
proof fn lemma_rs_shape<N: Outcomes>(f: Format, a: Grid<N>, tr: QrTrace<N>, steps: int)
    requires
        a.wf(),
        traces(f, a, tr),
        0 <= steps <= lesser(a.rows, a.cols),
    ensures
        tr.rs[steps].sized(a.rows, a.cols),
    decreases steps,
{
    if steps > 0 {
        lemma_rs_shape(f, a, tr, steps - 1);
        assert(steps_to(f, tr.rs[steps - 1], steps - 1, tr.steps[steps - 1], tr.rs[steps]));
    }
}

} // verus!
