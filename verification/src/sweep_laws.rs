//! What a sweep does in exact arithmetic: it brings the columns closer to orthogonal.

use crate::algebra::{
    lemma_comm, lemma_negate, lemma_not_negative, lemma_positive, lemma_regroup, lemma_spread,
    lemma_spread_sub, lemma_square, lemma_zero,
};
use crate::chol_laws::lemma_tenth_positive;
use crate::dense::{reduced_state, square_r};
use crate::exact::{
    inner, lemma_inner_comm, lemma_root, lemma_sum_add, lemma_sum_change, lemma_sum_exchange,
    lemma_sum_ext, lemma_sum_single, lemma_sum_squares, lemma_sum_swap, lemma_sum_zero,
    lemma_wide_dot, sum,
};
use crate::house::tall;
use crate::lanes::wide_whole;
use crate::scalar::{roots_exist, Number, WideNumber};
use crate::svd::{
    cosine, jacobi, lemma_pair_shape, pair_step, row_steps, settled, shaped, svd_state, sweep_rows,
    tangent, turned, Jacobi,
};
use crate::svd_laws::{
    law_rotation, lemma_cosine, lemma_inner_mixed, lemma_ranks, lemma_rotated, lemma_turn_product,
    mixed,
};
use crate::tensor_laws::lemma_squares_order;
use vstd::prelude::*;

verus! {

/// The square of the inner product of two vectors.
pub open spec fn overlap2(x: Seq<real>, y: Seq<real>) -> real {
    inner(x, y) * inner(x, y)
}

/// How far the columns are from orthogonal: the squares of the inner products of all pairs.
pub open spec fn tangle(a: Seq<Seq<real>>) -> real {
    sum(
        a.len() as int,
        |x: int|
            sum(
                a.len() as int,
                |y: int|
                    if x == y {
                        0real
                    } else {
                        overlap2(a[x], a[y])
                    },
            ),
    )
}

/// The squares of all inner products of the columns, those with themselves among them.
spec fn everything(a: Seq<Seq<real>>) -> real {
    sum(a.len() as int, |x: int| sum(a.len() as int, |y: int| overlap2(a[x], a[y])))
}

/// The squares of the inner products of the columns with themselves.
spec fn own(a: Seq<Seq<real>>) -> real {
    sum(a.len() as int, |x: int| overlap2(a[x], a[x]))
}

proof fn lemma_parts(a: Seq<Seq<real>>)
    ensures
        everything(a) == tangle(a) + own(a),
{
    let m = a.len() as int;
    let off = |x: int|
        sum(
            a.len() as int,
            |y: int|
                if x == y {
                    0real
                } else {
                    overlap2(a[x], a[y])
                },
        );
    let diag = |x: int| overlap2(a[x], a[x]);
    let all = |x: int| sum(a.len() as int, |y: int| overlap2(a[x], a[y]));
    assert forall|x: int| 0 <= x < m implies #[trigger] all(x) == off(x) + diag(x) by {
        let f = |y: int|
            if x == y {
                0real
            } else {
                overlap2(a[x], a[y])
            };
        let g = |y: int|
            if x == y {
                overlap2(a[x], a[x])
            } else {
                0real
            };
        lemma_sum_add(m, f, g);
        lemma_sum_ext(m, |y: int| f(y) + g(y), |y: int| overlap2(a[x], a[y]));
        lemma_sum_single(m, g, x);
    }
    lemma_sum_add(m, off, diag);
    lemma_sum_ext(m, all, |x: int| off(x) + diag(x));
}

/// A rotation of two columns keeps the squares of the inner products with a vector.
proof fn lemma_keeps(
    lanes: bool,
    z: Seq<real>,
    a: Seq<Seq<real>>,
    p: int,
    q: int,
    c: real,
    s: real,
)
    requires
        c * c + s * s == 1real,
        tall(a, z.len() as int),
        0 <= p < q < a.len(),
    ensures
        sum(a.len() as int, |y: int| overlap2(z, turned(lanes, a, p, q, c, s)[y])) == sum(
            a.len() as int,
            |y: int| overlap2(z, a[y]),
        ),
{
    let b = turned(lanes, a, p, q, c, s);
    let f = |y: int| overlap2(z, b[y]);
    let g = |y: int| overlap2(z, a[y]);
    lemma_rotated(a[p], a[q], c, s, wide_whole(lanes, a[p].len() as int));
    lemma_inner_mixed(z, c, a[p], s, a[q]);
    lemma_inner_mixed(z, c, a[q], -s, a[p]);
    let (u, w) = (inner(z, a[p]), inner(z, a[q]));
    lemma_turn_product(u, w, u, w, c, s);
    assert(b[p] == mixed(c, a[p], s, a[q]));
    assert(b[q] == mixed(c, a[q], -s, a[p]));
    lemma_sum_exchange(a.len() as int, f, g, p, q);
    lemma_sum_ext(a.len() as int, f, |y: int| overlap2(z, turned(lanes, a, p, q, c, s)[y]));
}

/// A rotation of two columns keeps the squares of all inner products, taken together.
proof fn lemma_everything(
    lanes: bool,
    a: Seq<Seq<real>>,
    n: int,
    p: int,
    q: int,
    c: real,
    s: real,
)
    requires
        c * c + s * s == 1real,
        tall(a, n),
        0 <= p < q < a.len(),
    ensures
        everything(turned(lanes, a, p, q, c, s)) == everything(a),
        tall(turned(lanes, a, p, q, c, s), n),
{
    let m = a.len() as int;
    let b = turned(lanes, a, p, q, c, s);
    let both = |x: int| sum(b.len() as int, |y: int| overlap2(b[x], b[y]));
    let mixed_sq = |x: int, y: int| overlap2(b[x], a[y]);
    let first = |x: int| sum(m, |y: int| mixed_sq(x, y));
    assert forall|x: int| 0 <= x < m implies #[trigger] both(x) == first(x) by {
        lemma_keeps(lanes, b[x], a, p, q, c, s);
        lemma_sum_ext(
            m,
            |y: int| overlap2(b[x], turned(lanes, a, p, q, c, s)[y]),
            |y: int| overlap2(b[x], b[y]),
        );
        lemma_sum_ext(m, |y: int| overlap2(b[x], a[y]), |y: int| mixed_sq(x, y));
    }
    lemma_sum_ext(m, both, first);
    lemma_sum_swap(m, m, mixed_sq);
    let second = |y: int| sum(m, |x: int| mixed_sq(x, y));
    let old_all = |y: int| sum(a.len() as int, |x: int| overlap2(a[y], a[x]));
    assert forall|y: int| 0 <= y < m implies #[trigger] second(y) == old_all(y) by {
        lemma_keeps(lanes, a[y], a, p, q, c, s);
        let f = |x: int| mixed_sq(x, y);
        let g = |x: int| overlap2(a[y], turned(lanes, a, p, q, c, s)[x]);
        assert forall|x: int| 0 <= x < m implies #[trigger] f(x) == g(x) by {
            lemma_inner_comm(b[x], a[y]);
        }
        lemma_sum_ext(m, f, g);
    }
    lemma_sum_ext(m, second, old_all);
}

/// The squares of all inner products of two columns.
proof fn lemma_two(x: Seq<real>, y: Seq<real>)
    requires
        x.len() == y.len(),
    ensures
        everything(seq![x, y]) == overlap2(x, x) + overlap2(y, y) + overlap2(x, y) + overlap2(x, y),
{
    let a = seq![x, y];
    let row = |i: int| sum(a.len() as int, |j: int| overlap2(a[i], a[j]));
    assert(sum(2, row) == sum(1, row) + row(1));
    assert(sum(1, row) == sum(0, row) + row(0));
    let f = |j: int| overlap2(a[0], a[j]);
    let g = |j: int| overlap2(a[1], a[j]);
    assert(sum(2, f) == sum(1, f) + f(1));
    assert(sum(1, f) == sum(0, f) + f(0));
    assert(sum(2, g) == sum(1, g) + g(1));
    assert(sum(1, g) == sum(0, g) + g(0));
    assert(row(0) == sum(2, f));
    assert(row(1) == sum(2, g));
    lemma_inner_comm(x, y);
}

/// A rotation brings the columns closer to orthogonal, by what its pair was off.
pub proof fn law_rotation_progress(
    lanes: bool,
    st: Jacobi<real>,
    n: int,
    m: int,
    p: int,
    q: int,
)
    requires
        roots_exist(),
        shaped(st, n, m),
        0 <= p < q < m,
        !settled(lanes, st.a[p], st.a[q]),
    ensures
        tangle(pair_step(lanes, st, p, q).a) == tangle(st.a) - overlap2(st.a[p], st.a[q])
            - overlap2(st.a[p], st.a[q]),
{
    let a = st.a;
    let (x, y) = (a[p], a[q]);
    let t = tangent(lanes, x, y);
    let c = cosine(t);
    let s = t * c;
    lemma_cosine(t);
    let b = turned(lanes, a, p, q, c, s);
    assert(pair_step(lanes, st, p, q).a == b);
    lemma_everything(lanes, a, n, p, q, c, s);
    lemma_parts(a);
    lemma_parts(b);
    // The same for the two columns alone.
    let pair = seq![x, y];
    let (u, w) = (b[p], b[q]);
    lemma_everything(lanes, pair, n, 0, 1, c, s);
    assert(turned(lanes, pair, 0, 1, c, s) =~= seq![u, w]);
    lemma_two(x, y);
    lemma_two(u, w);
    law_rotation(lanes, x, y);
    assert(inner(u, w) == 0real);
    lemma_zero(0real);
    let d = overlap2(x, y);
    assert(overlap2(u, u) + overlap2(w, w) == overlap2(x, x) + overlap2(y, y) + d + d);
    // The inner products of the columns with themselves grow by as much.
    let f = |i: int| overlap2(b[i], b[i]);
    let g = |i: int| overlap2(a[i], a[i]);
    let e = |i: int|
        if i == p {
            overlap2(b[p], b[p]) - d - d
        } else {
            overlap2(b[i], b[i])
        };
    lemma_sum_change(m, f, e, p);
    lemma_sum_exchange(m, e, g, p, q);
}

/// The steps of one column with those behind it.
proof fn lemma_row_progress(lanes: bool, st: Jacobi<real>, n: int, m: int, p: int, q: int)
    requires
        roots_exist(),
        shaped(st, n, m),
        0 <= p < m,
        q <= m,
    ensures
        shaped(row_steps(lanes, st, p, q), n, m),
        tangle(row_steps(lanes, st, p, q).a) <= tangle(st.a),
    decreases q - p,
{
    if q > p + 1 {
        lemma_row_progress(lanes, st, n, m, p, q - 1);
        let before = row_steps(lanes, st, p, q - 1);
        lemma_pair_shape(lanes, before, n, m, p, q - 1);
        if !settled(lanes, before.a[p], before.a[q - 1]) {
            law_rotation_progress(lanes, before, n, m, p, q - 1);
            lemma_square(inner(before.a[p], before.a[q - 1]));
        }
    }
}

/// The steps of a part of a sweep.
proof fn lemma_sweep_progress(lanes: bool, st: Jacobi<real>, n: int, m: int, p: int)
    requires
        roots_exist(),
        shaped(st, n, m),
        p <= m,
    ensures
        shaped(sweep_rows(lanes, st, m, p), n, m),
        tangle(sweep_rows(lanes, st, m, p).a) <= tangle(st.a),
    decreases p,
{
    if p > 0 {
        lemma_sweep_progress(lanes, st, n, m, p - 1);
        lemma_row_progress(lanes, sweep_rows(lanes, st, m, p - 1), n, m, p - 1, m);
    }
}

/// No sweep takes the columns further from orthogonal: after more sweeps they are as close, or
/// closer.
pub proof fn law_sweep_progress(
    lanes: bool,
    st: Jacobi<real>,
    n: int,
    m: int,
    from: int,
    to: int,
)
    requires
        roots_exist(),
        shaped(st, n, m),
        from <= to,
    ensures
        shaped(jacobi(lanes, st, m, to), n, m),
        tangle(jacobi(lanes, st, m, to).a) <= tangle(jacobi(lanes, st, m, from).a),
    decreases to, to - from,
{
    if to > 0 {
        if from < to {
            law_sweep_progress(lanes, st, n, m, from, to - 1);
        } else {
            law_sweep_progress(lanes, st, n, m, from - 1, to - 1);
        }
        lemma_sweep_progress(lanes, jacobi(lanes, st, m, to - 1), n, m, m);
    }
}

/// The square of the threshold: two columns count as orthogonal where the square of their inner
/// product is at most this part of the product of their own.
pub open spec fn threshold2() -> real {
    real::tenth_pow(12) * real::tenth_pow(12)
}

/// Two columns are orthogonal, up to `10^-12` of their lengths.
pub open spec fn apart(x: Seq<real>, y: Seq<real>) -> bool {
    overlap2(x, y) <= threshold2() * (inner(x, x) * inner(y, y))
}

/// All pairs of columns are orthogonal, up to `10^-12` of their lengths.
pub open spec fn all_apart(a: Seq<Seq<real>>) -> bool {
    forall|p: int, q: int|
        0 <= p < q < a.len() ==> apart(#[trigger] a[p], #[trigger] a[q])
}

/// Squares in the order of what is squared, where that is not negative.
pub proof fn lemma_squares_strict(x: real, y: real)
    requires
        0real <= x < y,
    ensures
        x * x < y * y,
{
    lemma_positive(y - x, y + x);
    lemma_spread(y - x, y, x);
    lemma_comm(y - x, y);
    lemma_comm(y - x, x);
    lemma_spread_sub(y, y, x);
    lemma_spread_sub(x, y, x);
    lemma_comm(y, x);
}

/// A pair is settled exactly when its columns are orthogonal, up to `10^-12` of their lengths.
pub proof fn law_settled(lanes: bool, x: Seq<real>, y: Seq<real>)
    requires
        roots_exist(),
        x.len() == y.len(),
    ensures
        settled(lanes, x, y) <==> apart(x, y),
{
    lemma_wide_dot(lanes, x, x);
    lemma_wide_dot(lanes, y, y);
    lemma_wide_dot(lanes, x, y);
    let n = x.len() as int;
    lemma_sum_squares(x, n);
    lemma_sum_squares(y, n);
    let (alpha, beta, gamma) = (inner(x, x), inner(y, y), inner(x, y));
    lemma_not_negative(alpha, beta);
    let ab = alpha * beta;
    lemma_root(ab);
    let eps = real::tenth_pow(12);
    lemma_tenth_positive(12);
    let bound = eps * ab.root();
    lemma_not_negative(eps, ab.root());
    lemma_regroup(eps, ab.root(), eps, ab.root());
    assert(bound * bound == threshold2() * ab);
    let g = gamma.magnitude();
    assert(g * g == overlap2(x, y)) by {
        lemma_negate(gamma, -gamma);
        lemma_negate(gamma, gamma);
        lemma_comm(gamma, -gamma);
    }
    if g <= bound {
        lemma_squares_order(g, bound);
    } else {
        lemma_squares_strict(bound, g);
    }
}

/// The tangle of `after` is less than that of `before`, by what some pair of `before` that is not
/// orthogonal, up to the threshold, was off.
pub open spec fn falls(before: Seq<Seq<real>>, after: Seq<Seq<real>>) -> bool {
    exists|p: int, q: int|
        {
            &&& 0 <= p < q < before.len()
            &&& !apart(#[trigger] before[p], #[trigger] before[q])
            &&& tangle(after) <= tangle(before) - 2real * overlap2(before[p], before[q])
        }
}

/// A fall is a fall: a pair that is not orthogonal has an inner product that is not 0.
pub proof fn lemma_falls(before: Seq<Seq<real>>, after: Seq<Seq<real>>, n: int)
    requires
        tall(before, n),
        0 <= n,
        falls(before, after),
    ensures
        tangle(after) < tangle(before),
{
    let (p, q) = choose|p: int, q: int|
        {
            &&& 0 <= p < q < before.len()
            &&& !apart(#[trigger] before[p], #[trigger] before[q])
            &&& tangle(after) <= tangle(before) - 2real * overlap2(before[p], before[q])
        };
    let (x, y) = (before[p], before[q]);
    lemma_sum_squares(x, n);
    lemma_sum_squares(y, n);
    lemma_not_negative(inner(x, x), inner(y, y));
    lemma_square(real::tenth_pow(12));
    lemma_not_negative(threshold2(), inner(x, x) * inner(y, y));
}

/// The steps of one column with those behind it change nothing where all pairs are settled, and
/// make the tangle fall where one is not.
proof fn lemma_row_falls(lanes: bool, st: Jacobi<real>, n: int, m: int, p: int, q: int)
    requires
        roots_exist(),
        shaped(st, n, m),
        0 <= p < m,
        q <= m,
    ensures
        falls(st.a, row_steps(lanes, st, p, q).a) || {
            &&& row_steps(lanes, st, p, q) == st
            &&& forall|j: int| p < j < q ==> settled(lanes, st.a[p], #[trigger] st.a[j])
        },
    decreases q - p,
{
    if q > p + 1 {
        let j = q - 1;
        lemma_row_falls(lanes, st, n, m, p, j);
        lemma_row_progress(lanes, st, n, m, p, j);
        let before = row_steps(lanes, st, p, j);
        let after = row_steps(lanes, st, p, q);
        if falls(st.a, before.a) {
            if !settled(lanes, before.a[p], before.a[j]) {
                law_rotation_progress(lanes, before, n, m, p, j);
                lemma_square(inner(before.a[p], before.a[j]));
            }
            lemma_falls_on(st.a, before.a, after.a);
        } else if !settled(lanes, st.a[p], st.a[j]) {
            law_rotation_progress(lanes, st, n, m, p, j);
            law_settled(lanes, st.a[p], st.a[j]);
            let d = overlap2(st.a[p], st.a[j]);
            assert(2real * d == d + d);
            assert(falls(st.a, after.a));
        }
    }
}

/// What has fallen stays so when it falls on.
proof fn lemma_falls_on(a: Seq<Seq<real>>, b: Seq<Seq<real>>, c: Seq<Seq<real>>)
    requires
        falls(a, b),
        tangle(c) <= tangle(b),
    ensures
        falls(a, c),
{
    let (p, q) = choose|p: int, q: int|
        {
            &&& 0 <= p < q < a.len()
            &&& !apart(#[trigger] a[p], #[trigger] a[q])
            &&& tangle(b) <= tangle(a) - 2real * overlap2(a[p], a[q])
        };
    assert(!apart(a[p], a[q]));
}

/// The same for the rows of a sweep.
proof fn lemma_sweep_falls(lanes: bool, st: Jacobi<real>, n: int, m: int, p: int)
    requires
        roots_exist(),
        shaped(st, n, m),
        p <= m,
    ensures
        falls(st.a, sweep_rows(lanes, st, m, p).a) || {
            &&& sweep_rows(lanes, st, m, p) == st
            &&& forall|i: int, j: int|
                0 <= i < p && i < j < m ==> settled(
                    lanes,
                    #[trigger] st.a[i],
                    #[trigger] st.a[j],
                )
        },
    decreases p,
{
    if p > 0 {
        lemma_sweep_falls(lanes, st, n, m, p - 1);
        lemma_sweep_progress(lanes, st, n, m, p - 1);
        let before = sweep_rows(lanes, st, m, p - 1);
        lemma_row_falls(lanes, before, n, m, p - 1, m);
        lemma_row_progress(lanes, before, n, m, p - 1, m);
        if falls(st.a, before.a) {
            lemma_falls_on(st.a, before.a, sweep_rows(lanes, st, m, p).a);
        }
    }
}

/// Every sweep makes progress: where all pairs of columns are orthogonal, up to `10^-12` of their
/// lengths, it changes nothing; where they are not, the tangle falls, by twice the square of the
/// inner product of some pair that was not. So it is with every sweep that is asked for, whatever
/// the number of columns.
pub proof fn law_svd_progress(lanes: bool, data: Seq<real>, n: int, m: int, sweeps: int)
    requires
        roots_exist(),
        0 <= n,
        0 <= m,
        0 <= sweeps,
    ensures
        ({
            let before = svd_state::<real, real>(lanes, data, n, m, sweeps);
            let after = svd_state::<real, real>(lanes, data, n, m, sweeps + 1);
            &&& before.a.len() == m
            &&& all_apart(before.a) ==> after == before
            &&& !all_apart(before.a) ==> falls(before.a, after.a) && tangle(after.a) < tangle(
                before.a,
            )
        }),
{
    let before = svd_state::<real, real>(lanes, data, n, m, sweeps);
    let after = svd_state::<real, real>(lanes, data, n, m, sweeps + 1);
    lemma_ranks(lanes, data, n, m, sweeps);
    assert(shaped(before, n, m));
    lemma_sweep_falls(lanes, before, n, m, m);
    assert(after == sweep_rows(lanes, before, m, m));
    if falls(before.a, after.a) {
        lemma_falls(before.a, after.a, n);
        let (p, q) = choose|p: int, q: int|
            {
                &&& 0 <= p < q < before.a.len()
                &&& !apart(#[trigger] before.a[p], #[trigger] before.a[q])
                &&& tangle(after.a) <= tangle(before.a) - 2real * overlap2(
                    before.a[p],
                    before.a[q],
                )
            };
        assert(!apart(before.a[p], before.a[q]));
    } else {
        assert forall|p: int, q: int| 0 <= p < q < before.a.len() implies apart(
            #[trigger] before.a[p],
            #[trigger] before.a[q],
        ) by {
            law_settled(lanes, before.a[p], before.a[q]);
        }
    }
}

/// The state in which the turn of the pair `p`, `q` comes in a sweep over the `m` columns of `st`.
pub open spec fn at_turn(lanes: bool, st: Jacobi<real>, m: int, p: int, q: int) -> Jacobi<real> {
    row_steps(lanes, sweep_rows(lanes, st, m, p), p, q)
}

/// What the pair `p`, `q` takes off the tangle in a sweep: twice the square of its inner product
/// when its turn comes, and nothing where it is orthogonal, up to the threshold, by then.
pub open spec fn taken(lanes: bool, st: Jacobi<real>, m: int, p: int, q: int) -> real {
    let a = at_turn(lanes, st, m, p, q).a;
    if p < q && !apart(a[p], a[q]) {
        2real * overlap2(a[p], a[q])
    } else {
        0real
    }
}

proof fn lemma_row_taken(lanes: bool, st: Jacobi<real>, n: int, m: int, p: int, q: int)
    requires
        roots_exist(),
        shaped(st, n, m),
        0 <= p < m,
        0 <= q <= m,
    ensures
        shaped(at_turn(lanes, st, m, p, q), n, m),
        tangle(at_turn(lanes, st, m, p, q).a) == tangle(sweep_rows(lanes, st, m, p).a) - sum(
            q,
            |j: int| taken(lanes, st, m, p, j),
        ),
    decreases q,
{
    lemma_sweep_progress(lanes, st, n, m, p);
    let start = sweep_rows(lanes, st, m, p);
    lemma_row_progress(lanes, start, n, m, p, q);
    let f = |j: int| taken(lanes, st, m, p, j);
    if q <= p + 1 {
        assert forall|j: int| 0 <= j < q implies #[trigger] f(j) == 0real by {}
        lemma_sum_zero(q, f);
    } else {
        let j = q - 1;
        lemma_row_taken(lanes, st, n, m, p, j);
        let before = at_turn(lanes, st, m, p, j);
        law_settled(lanes, before.a[p], before.a[j]);
        if !settled(lanes, before.a[p], before.a[j]) {
            law_rotation_progress(lanes, before, n, m, p, j);
        }
        assert(sum(q, f) == sum(j, f) + f(j));
    }
}

/// A sweep gives every pair its turn: what it takes off the tangle is what the pairs take off it,
/// each of them when its turn comes.
pub proof fn law_sweep_turns(lanes: bool, st: Jacobi<real>, n: int, m: int, rows: int)
    requires
        roots_exist(),
        shaped(st, n, m),
        0 <= rows <= m,
    ensures
        tangle(sweep_rows(lanes, st, m, rows).a) == tangle(st.a) - sum(
            rows,
            |p: int| sum(m, |q: int| taken(lanes, st, m, p, q)),
        ),
    decreases rows,
{
    let f = |p: int| sum(m, |q: int| taken(lanes, st, m, p, q));
    if rows > 0 {
        law_sweep_turns(lanes, st, n, m, rows - 1);
        lemma_row_taken(lanes, st, n, m, rows - 1, m);
        assert(sum(rows, f) == sum(rows - 1, f) + f(rows - 1));
    }
}

/// The same for the SVD of a tall matrix by way of its triangular factor.
pub proof fn law_tall_progress(lanes: bool, cols: Seq<Seq<real>>, n: int, sweeps: int)
    requires
        roots_exist(),
        0 <= sweeps,
    ensures
        ({
            let before = reduced_state::<real, real>(lanes, cols, n, sweeps);
            let after = reduced_state::<real, real>(lanes, cols, n, sweeps + 1);
            &&& before.a.len() == cols.len()
            &&& all_apart(before.a) ==> after == before
            &&& !all_apart(before.a) ==> falls(before.a, after.a) && tangle(after.a) < tangle(
                before.a,
            )
        }),
{
    let m = cols.len() as int;
    law_svd_progress(lanes, square_r(lanes, cols, n), m, m, sweeps);
}

} // verus!
