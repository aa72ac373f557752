//! Truncated singular value decomposition by one-sided Jacobi rotations.
//!
//! The columns of the matrix are rotated in pairs until all pairs are orthogonal; the same
//! rotations, collected, are the right singular vectors. The lengths of the columns are then the
//! singular values and their directions the left singular vectors; where a matrix of low rank
//! leaves columns without a direction, these vectors are completed to a basis. The work is done in
//! double width, so that the rotations do not add up rounding errors of single width.

#[allow(unused_imports)]
use crate::grid::{
    cell, columns, lemma_before, lemma_cell_bound, lemma_joined, lemma_line_order,
    lemma_panel_bounds, lemma_panel_push, lemma_panel_replace, panels,
};
use crate::grid::transpose;
#[allow(unused_imports)]
use crate::house::{axis, house, house_taus, lesser, tall, unwound};
use crate::house::{q_pass_col, unit_axis};
use crate::lanes::{dot3, rotate2};
#[allow(unused_imports)]
use crate::lanes::{rotated_first, rotated_second, running_dot, wide_dot, wide_whole};
use crate::plan::share;
use crate::scalar::{Scalar, WideScalar};
#[allow(unused_imports)]
use crate::scalar::{Number, WideNumber};
use crate::wave::wave_steps;
use vstd::prelude::*;

verus! {

/// `10^-12`: how far from orthogonal, relative to their lengths, a pair of columns may be.
pub const JACOBI_PLACES: u32 = 12;

/// The columns under rotation, and the rotations collected so far: one row for each column.
pub struct Jacobi<N> {
    pub a: Seq<Seq<N>>,
    pub v: Seq<Seq<N>>,
}

/// The columns `x` and `y` are orthogonal, up to the threshold.
pub open spec fn settled<N: Number>(lanes: bool, x: Seq<N>, y: Seq<N>) -> bool {
    let alpha = wide_dot(lanes, x, x);
    let beta = wide_dot(lanes, y, y);
    let gamma = wide_dot(lanes, x, y);
    gamma.magnitude().at_most(N::tenth_pow(JACOBI_PLACES).times(alpha.times(beta).root()))
}

/// The tangent of the rotation that makes the columns `x` and `y` orthogonal: of the two there are,
/// the one of the smaller angle.
pub open spec fn tangent<N: Number>(lanes: bool, x: Seq<N>, y: Seq<N>) -> N {
    let alpha = wide_dot(lanes, x, x);
    let beta = wide_dot(lanes, y, y);
    let gamma = wide_dot(lanes, x, y);
    let zeta = beta.minus(alpha).over(N::counted(2).times(gamma));
    zeta.sign().negated().over(
        zeta.magnitude().plus(N::unit().plus(zeta.times(zeta)).root()),
    )
}

/// The cosine that belongs to the tangent `t`.
pub open spec fn cosine<N: Number>(t: N) -> N {
    N::unit().over(N::unit().plus(t.times(t)).root())
}

/// The lines of a matrix with lines `p` and `q` rotated.
pub open spec fn turned<N: Number>(
    lanes: bool,
    lines: Seq<Seq<N>>,
    p: int,
    q: int,
    c: N,
    s: N,
) -> Seq<Seq<N>> {
    let whole = wide_whole(lanes, lines[p].len() as int);
    lines.update(p, rotated_first(lines[p], lines[q], c, s, whole)).update(
        q,
        rotated_second(lines[p], lines[q], c, s, whole),
    )
}

/// One step: columns `p` and `q`, and the rows that belong to them, are rotated unless settled.
pub open spec fn pair_step<N: Number>(lanes: bool, st: Jacobi<N>, p: int, q: int) -> Jacobi<N> {
    if settled(lanes, st.a[p], st.a[q]) {
        st
    } else {
        let t = tangent(lanes, st.a[p], st.a[q]);
        let c = cosine(t);
        let s = t.times(c);
        Jacobi { a: turned(lanes, st.a, p, q, c, s), v: turned(lanes, st.v, p, q, c, s) }
    }
}

/// The steps of `p` with `p + 1`, ..., `q - 1`.
pub open spec fn row_steps<N: Number>(lanes: bool, st: Jacobi<N>, p: int, q: int) -> Jacobi<N>
    decreases q - p,
{
    if q <= p + 1 {
        st
    } else {
        pair_step(lanes, row_steps(lanes, st, p, q - 1), p, q - 1)
    }
}

/// The steps of all pairs of the `m` columns whose first is below `p`.
pub open spec fn sweep_rows<N: Number>(lanes: bool, st: Jacobi<N>, m: int, p: int) -> Jacobi<N>
    decreases p,
{
    if p <= 0 {
        st
    } else {
        row_steps(lanes, sweep_rows(lanes, st, m, p - 1), p - 1, m)
    }
}

/// `sweeps` sweeps over all pairs of the `m` columns.
pub open spec fn jacobi<N: Number>(lanes: bool, st: Jacobi<N>, m: int, sweeps: int) -> Jacobi<N>
    decreases sweeps,
{
    if sweeps <= 0 {
        st
    } else {
        sweep_rows(lanes, jacobi(lanes, st, m, sweeps - 1), m, m)
    }
}

/// All pairs of columns are settled.
pub open spec fn all_settled<N: Number>(lanes: bool, st: Jacobi<N>) -> bool {
    forall|p: int, q: int|
        0 <= p < q < st.a.len() ==> settled(lanes, #[trigger] st.a[p], #[trigger] st.a[q])
}

/// The state before the first sweep: the columns of the row-major `n x m` matrix `data` in double
/// width, and no rotation.
pub open spec fn unturned<S, D: WideNumber<S>>(data: Seq<S>, n: int, m: int) -> Jacobi<D> {
    Jacobi {
        a: Seq::new(
            m as nat,
            |j: int| Seq::new(n as nat, |r: int| D::widened(data[cell(r, m, j)])),
        ),
        v: Seq::new(m as nat, |j: int| axis(m, j)),
    }
}

/// The state has the shape of an `n x m` matrix.
pub open spec fn shaped<N>(st: Jacobi<N>, n: int, m: int) -> bool {
    &&& st.a.len() == m
    &&& st.v.len() == m
    &&& tall(st.a, n)
    &&& tall(st.v, m)
}

/// Steps keep the shape.
pub proof fn lemma_pair_shape<N: Number>(
    lanes: bool,
    st: Jacobi<N>,
    n: int,
    m: int,
    p: int,
    q: int,
)
    requires
        shaped(st, n, m),
        0 <= p < q < m,
    ensures
        shaped(pair_step(lanes, st, p, q), n, m),
{
}

/// Where a sweep changes nothing, no number of sweeps does.
pub proof fn lemma_jacobi_fixed<N: Number>(lanes: bool, st: Jacobi<N>, m: int, from: int, to: int)
    requires
        0 <= from <= to,
        sweep_rows(lanes, jacobi(lanes, st, m, from), m, m) == jacobi(lanes, st, m, from),
    ensures
        jacobi(lanes, st, m, to) == jacobi(lanes, st, m, from),
    decreases to - from,
{
    if from < to {
        lemma_jacobi_fixed(lanes, st, m, from, to - 1);
    }
}

/// Rotates lines `p` and `q` of a buffer of `count` lines of `len` entries.
fn rotate_panels<T: Scalar>(
    flat: &mut [T],
    len: usize,
    count: usize,
    p: usize,
    q: usize,
    c: T,
    s: T,
    lanes: bool,
)
    requires
        p < q < count,
        old(flat)@.len() == count * len,
    ensures
        final(flat)@.len() == count * len,
        panels(final(flat)@, len as int, count as int) == turned(
            lanes,
            panels(old(flat)@, len as int, count as int),
            p as int,
            q as int,
            c,
            s,
        ),
{
    let ghost before = flat@;
    let ghost lines = panels(before, len as int, count as int);
    let _total = flat.len();
    proof {
        lemma_panel_bounds(len as int, count as int, p as int);
        lemma_panel_bounds(len as int, count as int, q as int);
        lemma_line_order(len as int, p as int, q as int);
        assert((q + 1) * len <= _total);
    }
    let (low, high) = flat.split_at_mut(q * len);
    let (_skip, from_p) = low.split_at_mut(p * len);
    let (x, _rest) = from_p.split_at_mut(len);
    let (y, _tail) = high.split_at_mut(len);
    assert(x@ =~= lines[p as int]);
    assert(y@ =~= lines[q as int]);
    rotate2(x, y, c, s, lanes);
    proof {
        let whole = wide_whole(lanes, len as int);
        let x1 = rotated_first(lines[p as int], lines[q as int], c, s, whole);
        let y1 = rotated_second(lines[p as int], lines[q as int], c, s, whole);
        lemma_panel_replace(before, len as int, count as int, p as int, x1);
        let mid = before.take(p * len) + x1 + before.skip((p + 1) * len);
        lemma_panel_replace(mid, len as int, count as int, q as int, y1);
        let after = mid.take(q * len) + y1 + mid.skip((q + 1) * len);
        assert(flat@ =~= after);
    }
}

/// The state that the buffers `a` and `v` hold.
pub open spec fn held<N>(a: Seq<N>, v: Seq<N>, n: int, m: int) -> Jacobi<N> {
    Jacobi { a: panels(a, n, m), v: panels(v, m, m) }
}

/// One step on columns `p` and `q`; whether they were settled.
fn turn_pair<T: Scalar>(
    a: &mut [T],
    v: &mut [T],
    n: usize,
    m: usize,
    p: usize,
    q: usize,
    lanes: bool,
) -> (done: bool)
    requires
        p < q < m,
        old(a)@.len() == m * n,
        old(v)@.len() == m * m,
    ensures
        final(a)@.len() == m * n,
        final(v)@.len() == m * m,
        held(final(a)@, final(v)@, n as int, m as int) == pair_step(
            lanes,
            held(old(a)@, old(v)@, n as int, m as int),
            p as int,
            q as int,
        ),
        done == settled(
            lanes,
            panels(old(a)@, n as int, m as int)[p as int],
            panels(old(a)@, n as int, m as int)[q as int],
        ),
{
    let _total = a.len();
    proof {
        lemma_panel_bounds(n as int, m as int, p as int);
        lemma_panel_bounds(n as int, m as int, q as int);
        assert((q + 1) * n <= _total);
    }
    let (alpha, beta, gamma) = dot3(
        &a[p * n..(p + 1) * n],
        &a[q * n..(q + 1) * n],
        lanes,
    );
    if gamma.abs().less_or_equal(T::decimal(JACOBI_PLACES).mul(alpha.mul(beta).sqrt())) {
        return true;
    }
    let zeta = beta.sub(alpha).div(T::from_count(2).mul(gamma));
    let t = zeta.signum().neg().div(zeta.abs().add(T::one().add(zeta.mul(zeta)).sqrt()));
    let c = T::one().div(T::one().add(t.mul(t)).sqrt());
    let s = t.mul(c);
    rotate_panels(a, n, m, p, q, c, s, lanes);
    rotate_panels(v, m, m, p, q, c, s, lanes);
    false
}

/// One sweep over all pairs of columns; whether all of them were settled, and so nothing changed.
fn sweep<T: Scalar>(a: &mut [T], v: &mut [T], n: usize, m: usize, lanes: bool) -> (converged: bool)
    requires
        old(a)@.len() == m * n,
        old(v)@.len() == m * m,
    ensures
        final(a)@.len() == m * n,
        final(v)@.len() == m * m,
        held(final(a)@, final(v)@, n as int, m as int) == sweep_rows(
            lanes,
            held(old(a)@, old(v)@, n as int, m as int),
            m as int,
            m as int,
        ),
        converged == all_settled(lanes, held(old(a)@, old(v)@, n as int, m as int)),
        converged ==> held(final(a)@, final(v)@, n as int, m as int) == held(
            old(a)@,
            old(v)@,
            n as int,
            m as int,
        ),
{
    let ghost st = held(a@, v@, n as int, m as int);
    let mut converged = true;
    let mut p: usize = 0;
    while p < m
        invariant
            p <= m,
            a@.len() == m * n,
            v@.len() == m * m,
            st.a.len() == m,
            held(a@, v@, n as int, m as int) == sweep_rows(lanes, st, m as int, p as int),
            converged ==> held(a@, v@, n as int, m as int) == st,
            converged ==> forall|x: int, y: int|
                0 <= x < p && x < y < m ==> settled(lanes, #[trigger] st.a[x], #[trigger] st.a[y]),
            !converged ==> !all_settled(lanes, st),
        decreases m - p,
    {
        let ghost start = held(a@, v@, n as int, m as int);
        let mut q: usize = p + 1;
        while q < m
            invariant
                p < q <= m,
                a@.len() == m * n,
                v@.len() == m * m,
                st.a.len() == m,
                held(a@, v@, n as int, m as int) == row_steps(lanes, start, p as int, q as int),
                converged ==> held(a@, v@, n as int, m as int) == st,
                converged ==> forall|x: int, y: int|
                    0 <= x <= p && x < y < m && (x < p || y < q) ==> settled(
                        lanes,
                        #[trigger] st.a[x],
                        #[trigger] st.a[y],
                    ),
                !converged ==> !all_settled(lanes, st),
            decreases m - q,
        {
            let done = turn_pair(a, v, n, m, p, q, lanes);
            if !done {
                converged = false;
            }
            q += 1;
        }
        p += 1;
    }
    converged
}

/// The state after at most `sweeps` sweeps; they end early where a sweep changes nothing.
fn run_sweeps<T: Scalar>(
    a: &mut [T],
    v: &mut [T],
    n: usize,
    m: usize,
    sweeps: usize,
    lanes: bool,
)
    requires
        old(a)@.len() == m * n,
        old(v)@.len() == m * m,
    ensures
        final(a)@.len() == m * n,
        final(v)@.len() == m * m,
        held(final(a)@, final(v)@, n as int, m as int) == jacobi(
            lanes,
            held(old(a)@, old(v)@, n as int, m as int),
            m as int,
            sweeps as int,
        ),
{
    let ghost st = held(a@, v@, n as int, m as int);
    let mut i: usize = 0;
    let mut converged = false;
    while i < sweeps && !converged
        invariant
            i <= sweeps,
            a@.len() == m * n,
            v@.len() == m * m,
            held(a@, v@, n as int, m as int) == jacobi(lanes, st, m as int, i as int),
            converged ==> jacobi(lanes, st, m as int, sweeps as int) == jacobi(
                lanes,
                st,
                m as int,
                i as int,
            ),
        decreases sweeps - i,
    {
        converged = sweep(a, v, n, m, lanes);
        proof {
            if converged {
                lemma_jacobi_fixed(lanes, st, m as int, i as int, i + 1);
                lemma_jacobi_fixed(lanes, st, m as int, i as int, sweeps as int);
            }
        }
        i += 1;
    }
}

/// The length of a column.
pub open spec fn length<N: Number>(col: Seq<N>) -> N {
    running_dot(N::nought(), col, col, 0, col.len() as int).root()
}

/// The lengths of the columns.
pub open spec fn lengths<N: Number>(cols: Seq<Seq<N>>) -> Seq<N> {
    Seq::new(cols.len(), |j: int| length(cols[j]))
}

/// Where `x` goes among the first `at` of the columns in `order`: behind all that are not below it.
pub open spec fn place<N: Number>(sigma: Seq<N>, order: Seq<int>, x: N, at: int) -> int
    decreases at,
{
    if at <= 0 {
        0
    } else if sigma[order[at - 1]].below(x) {
        place(sigma, order, x, at - 1)
    } else {
        at
    }
}

/// The first `n` columns in the order of their lengths, the longest first.
pub open spec fn ranked<N: Number>(sigma: Seq<N>, n: int) -> Seq<int>
    decreases n,
{
    if n <= 0 {
        Seq::empty()
    } else {
        let order = ranked(sigma, n - 1);
        order.insert(place(sigma, order, sigma[n - 1], order.len() as int), n - 1)
    }
}

pub proof fn lemma_place<N: Number>(sigma: Seq<N>, order: Seq<int>, x: N, at: int)
    requires
        0 <= at,
    ensures
        0 <= place(sigma, order, x, at) <= at,
    decreases at,
{
    if at > 0 {
        lemma_place(sigma, order, x, at - 1);
    }
}

/// A ranking of `n` columns lists `n` columns.
pub proof fn lemma_ranked<N: Number>(sigma: Seq<N>, n: int)
    requires
        0 <= n,
    ensures
        ranked(sigma, n).len() == n,
        forall|i: int| 0 <= i < n ==> 0 <= #[trigger] ranked(sigma, n)[i] < n,
    decreases n,
{
    if n > 0 {
        lemma_ranked(sigma, n - 1);
        let order = ranked(sigma, n - 1);
        lemma_place(sigma, order, sigma[n - 1], order.len() as int);
    }
}

/// Ranks the columns by their lengths, the longest first.
fn ranking<T: Scalar>(sigma: &[T]) -> (order: Vec<usize>)
    ensures
        order.len() == sigma.len(),
        forall|i: int|
            0 <= i < sigma.len() ==> #[trigger] order@[i] == ranked(sigma@, sigma.len() as int)[i],
{
    let mut order: Vec<usize> = Vec::new();
    let mut n: usize = 0;
    while n < sigma.len()
        invariant
            n <= sigma.len(),
            order.len() == n,
            ranked(sigma@, n as int).len() == n,
            forall|i: int| 0 <= i < n ==> #[trigger] order@[i] == ranked(sigma@, n as int)[i],
            forall|i: int| 0 <= i < n ==> #[trigger] order@[i] < n,
        decreases sigma.len() - n,
    {
        let x = sigma[n];
        let ghost before = ranked(sigma@, n as int);
        let mut at: usize = n;
        let mut found = false;
        while at > 0 && !found
            invariant
                at <= n < sigma.len(),
                order.len() == n,
                before == ranked(sigma@, n as int),
                x == sigma@[n as int],
                forall|i: int| 0 <= i < n ==> #[trigger] order@[i] == before[i],
                forall|i: int| 0 <= i < n ==> #[trigger] order@[i] < n,
                place(sigma@, before, x, n as int) == place(sigma@, before, x, at as int),
                found ==> place(sigma@, before, x, at as int) == at,
            decreases
                    at,
                    if found {
                        0int
                    } else {
                        1int
                    },
        {
            assert(order@[at - 1] == before[at - 1]);
            if sigma[order[at - 1]].less(x) {
                at -= 1;
            } else {
                found = true;
            }
        }
        proof {
            lemma_ranked(sigma@, n + 1);
            assert(ranked(sigma@, n + 1) == before.insert(at as int, n as int));
        }
        order.insert(at, n);
        n += 1;
    }
    order
}

/// The length of a column.
fn column_length<T: Scalar>(col: &[T]) -> (r: T)
    ensures
        r == length(col@),
{
    let mut acc = T::zero();
    let mut i: usize = 0;
    while i < col.len()
        invariant
            i <= col.len(),
            acc == running_dot(T::nought(), col@, col@, 0, i as int),
        decreases col.len() - i,
    {
        acc = acc.add(col[i].mul(col[i]));
        i += 1;
    }
    acc.sqrt()
}

/// The lengths of the columns in the buffer `a`.
fn column_lengths<T: Scalar>(a: &[T], n: usize, m: usize) -> (sigma: Vec<T>)
    requires
        a.len() == m * n,
    ensures
        sigma@ == lengths(panels(a@, n as int, m as int)),
{
    let mut sigma: Vec<T> = Vec::with_capacity(m);
    let mut j: usize = 0;
    while j < m
        invariant
            j <= m,
            a.len() == m * n,
            sigma.len() == j,
            forall|x: int|
                0 <= x < j ==> #[trigger] sigma@[x] == length(panels(a@, n as int, m as int)[x]),
        decreases m - j,
    {
        proof {
            lemma_panel_bounds(n as int, m as int, j as int);
        }
        sigma.push(column_length(&a[j * n..(j + 1) * n]));
        j += 1;
    }
    assert(sigma@ =~= lengths(panels(a@, n as int, m as int)));
    sigma
}

/// The state before the first sweep.
fn load<S: Scalar, D: WideScalar<S>>(data: &[S], n: usize, m: usize) -> (r: (Vec<D>, Vec<D>))
    requires
        data.len() >= n * m,
    ensures
        r.0.len() == m * n,
        r.1.len() == m * m,
        held(r.0@, r.1@, n as int, m as int) == unturned::<S, D>(data@, n as int, m as int),
{
    let mut a: Vec<D> = Vec::new();
    let mut v: Vec<D> = Vec::new();
    let ghost want = unturned::<S, D>(data@, n as int, m as int);
    let mut j: usize = 0;
    assert(0 * n == 0 && 0 * m == 0) by (nonlinear_arith);
    while j < m
        invariant
            j <= m,
            data.len() >= n * m,
            want == unturned::<S, D>(data@, n as int, m as int),
            a.len() == j * n,
            v.len() == j * m,
            panels(a@, n as int, j as int) == want.a.take(j as int),
            panels(v@, m as int, j as int) == want.v.take(j as int),
        decreases m - j,
    {
        let mut col: Vec<D> = Vec::with_capacity(n);
        let mut r: usize = 0;
        while r < n
            invariant
                r <= n,
                j < m,
                data.len() >= n * m,
                col.len() == r,
                forall|x: int|
                    0 <= x < r ==> #[trigger] col@[x] == D::widened(
                        data@[cell(x, m as int, j as int)],
                    ),
            decreases n - r,
        {
            proof {
                lemma_cell_bound(n as int, m as int, r as int, j as int);
            }
            col.push(D::widen(data[r * m + j]));
            r += 1;
        }
        let mut line = unit_axis::<D>(m, j);
        let ghost (a0, v0, c0, l0) = (a@, v@, col@, line@);
        assert(c0 =~= want.a[j as int]);
        a.append(&mut col);
        v.append(&mut line);
        proof {
            lemma_panel_push(a0, n as int, j as int, c0);
            lemma_panel_push(v0, m as int, j as int, l0);
            assert(want.a.take(j + 1) =~= want.a.take(j as int).push(want.a[j as int]));
            assert(want.v.take(j + 1) =~= want.v.take(j as int).push(want.v[j as int]));
        }
        j += 1;
    }
    assert(want.a.take(m as int) =~= want.a);
    assert(want.v.take(m as int) =~= want.v);
    (a, v)
}

/// The state after the sweeps over the row-major `n x m` matrix `data`.
pub open spec fn svd_state<S, D: WideNumber<S>>(
    lanes: bool,
    data: Seq<S>,
    n: int,
    m: int,
    sweeps: int,
) -> Jacobi<D> {
    jacobi(lanes, unturned::<S, D>(data, n, m), m, sweeps)
}

/// The column that holds singular triplet `i` of the state `st`.
pub open spec fn triplet<N: Number>(st: Jacobi<N>, i: int) -> int {
    ranked(lengths(st.a), st.a.len() as int)[i]
}

/// Entry `j` of right singular vector `i` of the state `st`.
pub open spec fn right_entry<N: Number>(st: Jacobi<N>, j: int, i: int) -> N {
    st.v[triplet(st, i)][j]
}

/// Singular value `i` of the state `st`.
pub open spec fn singular_value<N: Number>(st: Jacobi<N>, i: int) -> N {
    length(st.a[triplet(st, i)])
}

/// Singular value `i` of the state `st` makes no difference to the first: it is 0, or so small that
/// rounding loses it.
pub open spec fn lost<N: Number>(st: Jacobi<N>, i: int) -> bool {
    singular_value(st, 0).plus(singular_value(st, i)).same(singular_value(st, 0))
}

/// The column that holds triplet `i` of the state `st` has no direction of its own: its length is
/// 0, or it is what rounding has left of another column. Such a rest is lost beside the first
/// singular value and not orthogonal to all columns before it.
pub open spec fn spent<N: Number>(lanes: bool, st: Jacobi<N>, i: int) -> bool {
    ||| singular_value(st, i).same(N::nought())
    ||| lost(st, i) && exists|j: int|
        0 <= j < i && !settled(lanes, st.a[#[trigger] triplet(st, j)], st.a[triplet(st, i)])
}

/// Those of the first `upto` triplets of the state `st` whose columns have a direction.
pub open spec fn lasting<N: Number>(lanes: bool, st: Jacobi<N>, upto: int) -> Seq<int>
    decreases upto,
{
    if upto <= 0 {
        Seq::empty()
    } else if spent(lanes, st, upto - 1) {
        lasting(lanes, st, upto - 1)
    } else {
        lasting(lanes, st, upto - 1).push(upto - 1)
    }
}

/// The direction of the column that holds triplet `i` of the state `st`.
pub open spec fn direction<N: Number>(st: Jacobi<N>, i: int) -> Seq<N> {
    st.a[triplet(st, i)].map_values(|x: N| x.over(singular_value(st, i)))
}

/// The directions of the columns that hold the given triplets of the state `st`.
pub open spec fn directions_of<N: Number>(st: Jacobi<N>, triplets: Seq<int>) -> Seq<Seq<N>> {
    Seq::new(triplets.len(), |c: int| direction(st, triplets[c]))
}

/// Vector `i` of the basis that the reflections of the columns `cols` make of the axes: behind
/// `cols.len()` the vectors of this basis are orthogonal to all the columns.
pub open spec fn completed<N: Number>(lanes: bool, cols: Seq<Seq<N>>, n: int, i: int) -> Seq<N> {
    let k = lesser(n, cols.len() as int);
    unwound(lanes, house(lanes, cols, k), house_taus(lanes, cols, k), axis(n, i), k)
}

/// Left singular vector `i` of the state `st`, with columns of `n` entries: the direction of the
/// column, or, where it has none, the next vector that completes the basis.
pub open spec fn left_vector<N: Number>(lanes: bool, st: Jacobi<N>, n: int, i: int) -> Seq<N> {
    if spent(lanes, st, i) {
        let rest = i - lasting(lanes, st, i).len();
        let all = lasting(lanes, st, st.a.len() as int);
        completed(lanes, directions_of(st, all), n, all.len() + rest)
    } else {
        direction(st, i)
    }
}

/// Entry `r` of left singular vector `i` of the state `st`, with columns of `n` entries.
pub open spec fn left_entry<N: Number>(lanes: bool, st: Jacobi<N>, n: int, r: int, i: int) -> N {
    left_vector(lanes, st, n, i)[r]
}

/// The directions of the first `count` columns in `order`, one after the other.
fn directions<T: Scalar>(
    a: &[T],
    n: usize,
    m: usize,
    sigma: &[T],
    order: &[usize],
    count: usize,
) -> (out: Vec<T>)
    requires
        a.len() == m * n,
        sigma.len() == m,
        count <= order.len(),
        forall|i: int| 0 <= i < count ==> #[trigger] order@[i] < m,
    ensures
        out.len() == count * n,
        forall|i: int|
            0 <= i < count ==> #[trigger] panels(out@, n as int, count as int)[i] == panels(
                a@,
                n as int,
                m as int,
            )[order@[i] as int].map_values(|x: T| x.over(sigma@[order@[i] as int])),
{
    let ghost cols = panels(a@, n as int, m as int);
    let ghost want = Seq::new(
        count as nat,
        |i: int| cols[order@[i] as int].map_values(|x: T| x.over(sigma@[order@[i] as int])),
    );
    let mut out: Vec<T> = Vec::new();
    let mut i: usize = 0;
    assert(0 * n == 0) by (nonlinear_arith);
    assert(panels(out@, n as int, 0) =~= want.take(0));
    while i < count
        invariant
            i <= count,
            a.len() == m * n,
            sigma.len() == m,
            count <= order.len(),
            cols == panels(a@, n as int, m as int),
            forall|x: int| 0 <= x < count ==> #[trigger] order@[x] < m,
            want == Seq::new(
                count as nat,
                |x: int| cols[order@[x] as int].map_values(|y: T| y.over(sigma@[order@[x] as int])),
            ),
            out.len() == i * n,
            panels(out@, n as int, i as int) == want.take(i as int),
        decreases count - i,
    {
        let j = order[i];
        let s = sigma[j];
        let ghost before = out@;
        proof {
            lemma_panel_bounds(n as int, m as int, j as int);
        }
        let mut r: usize = 0;
        while r < n
            invariant
                r <= n,
                j < m,
                a.len() == m * n,
                cols == panels(a@, n as int, m as int),
                s == sigma@[j as int],
                (j + 1) * n <= m * n,
                (j + 1) * n == j * n + n,
                0 <= j * n,
                out@ == before + cols[j as int].map_values(|x: T| x.over(s)).take(r as int),
            decreases n - r,
        {
            assert(cols[j as int][r as int] == a@[j * n + r]);
            out.push(a[j * n + r].div(s));
            assert(out@ =~= before + cols[j as int].map_values(|x: T| x.over(s)).take(r + 1));
            r += 1;
        }
        proof {
            let piece = cols[j as int].map_values(|x: T| x.over(s));
            assert(piece.take(n as int) =~= piece);
            lemma_joined(before, piece, n as int, i as int, 1);
            lemma_panel_bounds(n as int, 1, 0);
            assert(panels(piece, n as int, 1)[0] =~= piece);
            assert(piece =~= want[i as int]);
            assert(panels(out@, n as int, i + 1) =~= want.take(i + 1));
        }
        i += 1;
    }
    assert(want.take(count as int) =~= want);
    out
}

/// Whether two columns of the buffer are orthogonal, up to the threshold.
fn columns_settled<T: Scalar>(
    a: &[T],
    n: usize,
    m: usize,
    p: usize,
    q: usize,
    lanes: bool,
) -> (r: bool)
    requires
        a.len() == m * n,
        p < m,
        q < m,
    ensures
        r == settled(
            lanes,
            panels(a@, n as int, m as int)[p as int],
            panels(a@, n as int, m as int)[q as int],
        ),
{
    proof {
        lemma_panel_bounds(n as int, m as int, p as int);
        lemma_panel_bounds(n as int, m as int, q as int);
    }
    let (alpha, beta, gamma) = dot3(&a[p * n..(p + 1) * n], &a[q * n..(q + 1) * n], lanes);
    gamma.abs().less_or_equal(T::decimal(JACOBI_PLACES).mul(alpha.mul(beta).sqrt()))
}

/// Whether the column that `order` has at `i` has no direction of its own.
fn is_spent<T: Scalar>(
    a: &[T],
    n: usize,
    m: usize,
    sigma: &[T],
    order: &[usize],
    i: usize,
    lanes: bool,
    Ghost(st): Ghost<Jacobi<T>>,
) -> (r: bool)
    requires
        a.len() == m * n,
        st.a == panels(a@, n as int, m as int),
        sigma@ == lengths(st.a),
        order.len() == m,
        i < m,
        forall|x: int| 0 <= x < m ==> #[trigger] order@[x] == triplet(st, x) && order@[x] < m,
    ensures
        r == spent(lanes, st, i as int),
{
    let first = sigma[order[0]];
    let own = sigma[order[i]];
    assert(sigma@[order@[0] as int] == singular_value(st, 0));
    assert(sigma@[order@[i as int] as int] == singular_value(st, i as int));
    if own.equal(T::zero()) {
        return true;
    }
    if !first.add(own).equal(first) {
        return false;
    }
    let mut j: usize = 0;
    while j < i
        invariant
            j <= i < m,
            a.len() == m * n,
            st.a == panels(a@, n as int, m as int),
            order.len() == m,
            forall|x: int| 0 <= x < m ==> #[trigger] order@[x] == triplet(st, x) && order@[x] < m,
            lost(st, i as int),
            forall|x: int|
                0 <= x < j ==> settled(
                    lanes,
                    st.a[#[trigger] triplet(st, x)],
                    st.a[triplet(st, i as int)],
                ),
        decreases i - j,
    {
        assert(order@[j as int] == triplet(st, j as int));
        if !columns_settled(a, n, m, order[j], order[i], lanes) {
            return true;
        }
        j += 1;
    }
    false
}

/// The columns with a direction of their own, in the order of `order`, and of each column in that
/// order whether it has none.
fn sort_out<T: Scalar>(
    a: &[T],
    n: usize,
    m: usize,
    sigma: &[T],
    order: &[usize],
    lanes: bool,
    Ghost(st): Ghost<Jacobi<T>>,
) -> (res: (Vec<usize>, Vec<bool>))
    requires
        a.len() == m * n,
        st.a == panels(a@, n as int, m as int),
        sigma@ == lengths(st.a),
        order.len() == m,
        forall|x: int| 0 <= x < m ==> #[trigger] order@[x] == triplet(st, x) && order@[x] < m,
    ensures
        res.0.len() == lasting(lanes, st, m as int).len(),
        forall|c: int|
            0 <= c < res.0.len() ==> #[trigger] res.0@[c] == triplet(
                st,
                lasting(lanes, st, m as int)[c],
            ) && res.0@[c] < m,
        res.1.len() == m,
        forall|i: int| 0 <= i < m ==> #[trigger] res.1@[i] == spent(lanes, st, i),
{
    let mut kept: Vec<usize> = Vec::new();
    let mut gone: Vec<bool> = Vec::with_capacity(m);
    let mut i: usize = 0;
    while i < m
        invariant
            i <= m,
            a.len() == m * n,
            st.a == panels(a@, n as int, m as int),
            sigma@ == lengths(st.a),
            order.len() == m,
            forall|x: int| 0 <= x < m ==> #[trigger] order@[x] == triplet(st, x) && order@[x] < m,
            kept.len() == lasting(lanes, st, i as int).len(),
            forall|c: int|
                0 <= c < kept.len() ==> #[trigger] kept@[c] == triplet(
                    st,
                    lasting(lanes, st, i as int)[c],
                ) && kept@[c] < m,
            gone.len() == i,
            forall|x: int| 0 <= x < i ==> #[trigger] gone@[x] == spent(lanes, st, x),
        decreases m - i,
    {
        let none = is_spent(a, n, m, sigma, order, i, lanes, Ghost(st));
        if !none {
            assert(order@[i as int] == triplet(st, i as int));
            kept.push(order[i]);
        }
        gone.push(none);
        i += 1;
    }
    (kept, gone)
}

/// The first `kk` left singular vectors, one after the other.
fn left_vectors<T: Scalar>(
    a: &[T],
    n: usize,
    m: usize,
    sigma: &[T],
    order: &[usize],
    kk: usize,
    lanes: bool,
    Ghost(st): Ghost<Jacobi<T>>,
) -> (out: Vec<T>)
    requires
        a.len() == m * n,
        st.a == panels(a@, n as int, m as int),
        sigma@ == lengths(st.a),
        order.len() == m,
        kk <= m,
        forall|i: int| 0 <= i < m ==> #[trigger] order@[i] == triplet(st, i) && order@[i] < m,
    ensures
        out.len() == kk * n,
        forall|i: int|
            0 <= i < kk ==> #[trigger] panels(out@, n as int, kk as int)[i] == left_vector(
                lanes,
                st,
                n as int,
                i,
            ),
{
    let (kept, gone) = sort_out(a, n, m, sigma, order, lanes, Ghost(st));
    let p = kept.len();
    let ghost all = lasting(lanes, st, m as int);
    let ghost cols = directions_of(st, all);
    let mut work = directions(a, n, m, sigma, kept.as_slice(), p);
    assert(panels(work@, n as int, p as int) =~= cols);
    let k: usize = if n <= p {
        n
    } else {
        p
    };
    // The reflections are needed where a vector is missing only.
    let mut tau: Vec<T> = Vec::new();
    let missing = any_of(gone.as_slice(), kk);
    if missing {
        let ranges = share(p, 1, false);
        tau = wave_steps(work.as_mut_slice(), n, p, ranges.as_slice(), lanes);
    }
    let mut out: Vec<T> = Vec::new();
    let mut rest: usize = 0;
    let mut i: usize = 0;
    assert(0 * n == 0) by (nonlinear_arith);
    while i < kk
        invariant
            i <= kk <= m,
            a.len() == m * n,
            st.a == panels(a@, n as int, m as int),
            sigma@ == lengths(st.a),
            order.len() == m,
            forall|x: int| 0 <= x < m ==> #[trigger] order@[x] == triplet(st, x) && order@[x] < m,
            gone.len() == m,
            forall|x: int| 0 <= x < m ==> #[trigger] gone@[x] == spent(lanes, st, x),
            missing == exists|x: int| 0 <= x < kk && #[trigger] gone@[x],
            all == lasting(lanes, st, m as int),
            cols == directions_of(st, all),
            p == all.len(),
            k == lesser(n as int, p as int),
            rest == i - lasting(lanes, st, i as int).len(),
            rest <= i,
            work.len() == p * n,
            missing ==> panels(work@, n as int, p as int) == house(lanes, cols, k as int),
            missing ==> tau@ == house_taus(lanes, cols, k as int),
            out.len() == i * n,
            forall|x: int|
                0 <= x < i ==> #[trigger] panels(out@, n as int, i as int)[x] == left_vector(
                    lanes,
                    st,
                    n as int,
                    x,
                ),
        decreases kk - i,
    {
        let ghost before = out@;
        let mut col: Vec<T>;
        if gone[i] {
            // Where there is no such axis the vector is all zero.
            col = if n > p && rest < n - p {
                unit_axis::<T>(n, p + rest)
            } else {
                unit_axis::<T>(n, n)
            };
            proof {
                assert(gone@[i as int]);
                assert(col@ =~= axis::<T>(n as int, p + rest));
            }
            q_pass_col(col.as_mut_slice(), work.as_slice(), tau.as_slice(), n, p, k, lanes);
            rest += 1;
        } else {
            let only: Vec<usize> = vec![order[i]];
            col = directions(a, n, m, sigma, only.as_slice(), 1);
            proof {
                assert(order@[i as int] == triplet(st, i as int));
                lemma_panel_bounds(n as int, m as int, order@[i as int] as int);
                lemma_panel_bounds(n as int, 1, 0);
                assert(panels(col@, n as int, 1)[0] =~= col@);
                assert(col@ =~= direction(st, i as int));
            }
        }
        let ghost piece = col@;
        assert(piece == left_vector(lanes, st, n as int, i as int));
        out.append(&mut col);
        proof {
            assert(piece.len() == 1 * n);
            lemma_joined(before, piece, n as int, i as int, 1);
            lemma_panel_bounds(n as int, 1, 0);
            assert(panels(piece, n as int, 1)[0] =~= piece);
            assert forall|x: int| 0 <= x < i + 1 implies #[trigger] panels(
                out@,
                n as int,
                i + 1,
            )[x] == left_vector(lanes, st, n as int, x) by {
                if x < i {
                    assert(panels(before, n as int, i as int)[x] == left_vector(
                        lanes,
                        st,
                        n as int,
                        x,
                    ));
                }
            }
        }
        i += 1;
    }
    out
}

/// Whether one of the first `upto` marks is set.
fn any_of(marks: &[bool], upto: usize) -> (r: bool)
    requires
        upto <= marks.len(),
    ensures
        r == exists|i: int| 0 <= i < upto && #[trigger] marks@[i],
{
    let mut i: usize = 0;
    while i < upto
        invariant
            i <= upto <= marks.len(),
            forall|x: int| 0 <= x < i ==> !#[trigger] marks@[x],
        decreases upto - i,
    {
        if marks[i] {
            return true;
        }
        i += 1;
    }
    false
}

/// Entry `r` of the rotations of the first `kk` columns in `order`, for every `r`; row-major.
fn rotations<S: Scalar, D: WideScalar<S>>(v: &[D], m: usize, order: &[usize], kk: usize) -> (out:
    Vec<S>)
    requires
        v.len() == m * m,
        kk <= order.len(),
        forall|i: int| 0 <= i < kk ==> #[trigger] order@[i] < m,
    ensures
        out.len() == m * kk,
        forall|r: int, i: int|
            0 <= r < m && 0 <= i < kk ==> #[trigger] out@[cell(r, kk as int, i)] == panels(
                v@,
                m as int,
                m as int,
            )[order@[i] as int][r].narrowed(),
{
    let ghost lines = panels(v@, m as int, m as int);
    let mut out: Vec<S> = Vec::new();
    let mut r: usize = 0;
    assert(0 * kk == 0) by (nonlinear_arith);
    while r < m
        invariant
            r <= m,
            v.len() == m * m,
            kk <= order.len(),
            lines == panels(v@, m as int, m as int),
            forall|i: int| 0 <= i < kk ==> #[trigger] order@[i] < m,
            out.len() == r * kk,
            forall|r2: int, i: int|
                0 <= r2 < r && 0 <= i < kk ==> #[trigger] out@[cell(r2, kk as int, i)]
                    == lines[order@[i] as int][r2].narrowed(),
        decreases m - r,
    {
        let mut i: usize = 0;
        while i < kk
            invariant
                r < m,
                i <= kk,
                v.len() == m * m,
                kk <= order.len(),
                lines == panels(v@, m as int, m as int),
                forall|x: int| 0 <= x < kk ==> #[trigger] order@[x] < m,
                out.len() == cell(r as int, kk as int, i as int),
                forall|r2: int, i2: int|
                    0 <= r2 <= r && 0 <= i2 < kk && (r2 < r || i2 < i) ==> #[trigger] out@[cell(
                        r2,
                        kk as int,
                        i2,
                    )] == lines[order@[i2] as int][r2].narrowed(),
            decreases kk - i,
        {
            let j = order[i];
            proof {
                lemma_panel_bounds(m as int, m as int, j as int);
                assert(lines[j as int][r as int] == v@[j * m + r]);
            }
            let ghost before = out@;
            out.push(v[j * m + r].narrow());
            proof {
                assert forall|r2: int, i2: int|
                    0 <= r2 <= r && 0 <= i2 < kk && (r2 < r || i2 < i
                        + 1) implies #[trigger] out@[cell(r2, kk as int, i2)]
                    == lines[order@[i2] as int][r2].narrowed() by {
                    lemma_before(kk as int, r as int, i as int, r2, i2);
                    if r2 < r || i2 < i {
                        assert(before[cell(r2, kk as int, i2)] == out@[cell(r2, kk as int, i2)]);
                    }
                }
            }
            i += 1;
        }
        assert((r + 1) * kk == r * kk + kk) by (nonlinear_arith);
        r += 1;
    }
    out
}

/// Every number, rounded.
fn narrow_all<S: Scalar, D: WideScalar<S>>(x: &[D]) -> (out: Vec<S>)
    ensures
        out.len() == x.len(),
        forall|i: int| 0 <= i < x.len() ==> #[trigger] out@[i] == x@[i].narrowed(),
{
    let mut out: Vec<S> = Vec::with_capacity(x.len());
    let mut i: usize = 0;
    while i < x.len()
        invariant
            i <= x.len(),
            out.len() == i,
            forall|j: int| 0 <= j < i ==> #[trigger] out@[j] == x@[j].narrowed(),
        decreases x.len() - i,
    {
        out.push(x[i].narrow());
        i += 1;
    }
    out
}

/// Truncated SVD of a row-major `n x m` matrix by one-sided Jacobi rotations: the `min(k, m)`
/// triplets of largest singular value, in at most `sweeps` sweeps.
///
/// Where the rank of the matrix is below the number of triplets that are asked for, the singular
/// values behind it are 0, up to rounding, and their left singular vectors complete the basis.
///
/// Returns `(u, s, v)` where column `i` of `u`, row-major `m x k`, is the `i`-th right singular
/// vector, `s[i]` the singular value and column `i` of `v`, row-major `n x k`, the `i`-th left
/// one: `A[r][j] = sum_i v[r k + i] s[i] u[j k + i]`.
pub fn svd_cpu<S: Scalar, D: WideScalar<S>>(
    data: &[S],
    n: usize,
    m: usize,
    k: usize,
    sweeps: usize,
    lanes: bool,
) -> (res: (Vec<S>, Vec<S>, Vec<S>))
    requires
        data.len() >= n * m,
        m * m <= usize::MAX,
    ensures
        ({
            let st = svd_state::<S, D>(lanes, data@, n as int, m as int, sweeps as int);
            let kk = lesser(k as int, m as int);
            &&& res.0.len() == m * kk
            &&& res.1.len() == kk
            &&& res.2.len() == n * kk
            &&& forall|j: int, i: int|
                0 <= j < m && 0 <= i < kk ==> #[trigger] res.0@[cell(j, kk, i)] == right_entry(
                    st,
                    j,
                    i,
                ).narrowed()
            &&& forall|i: int|
                0 <= i < kk ==> #[trigger] res.1@[i] == singular_value(st, i).narrowed()
            &&& forall|r: int, i: int|
                0 <= r < n && 0 <= i < kk ==> #[trigger] res.2@[cell(r, kk, i)] == left_entry(
                    lanes,
                    st,
                    n as int,
                    r,
                    i,
                ).narrowed()
        }),
{
    let (mut a, mut v) = load::<S, D>(data, n, m);
    run_sweeps(a.as_mut_slice(), v.as_mut_slice(), n, m, sweeps, lanes);
    let ghost st = svd_state::<S, D>(lanes, data@, n as int, m as int, sweeps as int);
    assert(st.a == panels(a@, n as int, m as int));
    assert(st.v == panels(v@, m as int, m as int));
    let sigma = column_lengths(a.as_slice(), n, m);
    let order = ranking(sigma.as_slice());
    proof {
        lemma_ranked(sigma@, m as int);
        assert forall|i: int| 0 <= i < m implies #[trigger] order@[i] == triplet(st, i)
            && order@[i] < m by {}
    }
    let kk: usize = if k <= m {
        k
    } else {
        m
    };
    let u_flat = rotations::<S, D>(v.as_slice(), m, order.as_slice(), kk);
    let left = left_vectors(
        a.as_slice(),
        n,
        m,
        sigma.as_slice(),
        order.as_slice(),
        kk,
        lanes,
        Ghost(st),
    );
    let left_rows = transpose(left.as_slice(), kk, n);
    let v_flat = narrow_all::<S, D>(left_rows.as_slice());
    proof {
        assert forall|r: int, i: int| 0 <= r < n && 0 <= i < kk implies #[trigger] v_flat@[cell(
            r,
            kk as int,
            i,
        )] == left_entry(lanes, st, n as int, r, i).narrowed() by {
            lemma_cell_bound(n as int, kk as int, r, i);
            lemma_panel_bounds(n as int, kk as int, i);
            assert(panels(left@, n as int, kk as int)[i][r] == left@[cell(i, n as int, r)]);
        }
    }
    let mut s: Vec<S> = Vec::with_capacity(kk);
    let mut i: usize = 0;
    while i < kk
        invariant
            i <= kk <= m,
            order.len() == m,
            sigma.len() == m,
            s.len() == i,
            forall|x: int| 0 <= x < m ==> #[trigger] order@[x] < m,
            forall|x: int|
                0 <= x < i ==> #[trigger] s@[x] == sigma@[order@[x] as int].narrowed(),
        decreases kk - i,
    {
        s.push(sigma[order[i]].narrow());
        i += 1;
    }
    (u_flat, s, v_flat)
}

} // verus!
