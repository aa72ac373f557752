//! Householder QR of a matrix in a flat buffer.
//!
//! The work buffer is column-major. Step `i` replaces column `i` from the diagonal down by
//! `beta` and the reflector's tail (its head is 1 and is not stored), and reflects every later
//! column. When all steps are done the part on and above the diagonal is `R`, up to signs; the
//! tails below the diagonal, with the factors `tau`, build `Q` back to front.

#[allow(unused_imports)]
use crate::grid::{
    cell, columns, lemma_cell_bound, lemma_cell_unique, lemma_joined, lemma_line_order,
    lemma_panel_bounds, lemma_panel_replace, panels,
};
use crate::grid::{filled, transpose};
#[allow(unused_imports)]
use crate::lanes::{lane_dot, lane_sub_scaled, running_dot};
use crate::lanes::{apply_pair, dot_pair};
use crate::plan::{share, shares_steps};
#[allow(unused_imports)]
use crate::plan::tiled;
#[allow(unused_imports)]
use crate::scalar::Number;
use crate::scalar::Scalar;
use crate::wave::wave_steps;
use vstd::prelude::*;

verus! {

/// The reflection that clears a column below its first entry.
pub struct Reflector<N> {
    /// The factor of the reflection `x - tau (w . x) w`; 0 where there is nothing to clear.
    pub tau: N,
    /// What the first entry becomes.
    pub beta: N,
    /// `w` without its first entry, which is 1.
    pub tail: Seq<N>,
}

/// The reflection that clears `v` below its first entry.
///
/// `beta` has the sign opposite to `v[0]`, so that `v[0] - beta` does not cancel.
pub open spec fn reflector<N: Number>(v: Seq<N>) -> Reflector<N> {
    let norm2 = running_dot(N::nought(), v, v, 0, v.len() as int);
    let norm = norm2.root();
    let sign = if v[0].below(N::nought()) {
        N::unit()
    } else {
        N::unit().negated()
    };
    let u0 = v[0].minus(sign.times(norm));
    Reflector {
        tau: if N::nought().below(norm2) {
            u0.negated().over(norm).times(sign)
        } else {
            N::nought()
        },
        beta: sign.times(norm),
        tail: if u0.same(N::nought()) {
            v.skip(1)
        } else {
            Seq::new((v.len() - 1) as nat, |r: int| v[r + 1].over(u0))
        },
    }
}

/// `w . x` for the reflector with tail `w`.
pub open spec fn overlap<N: Number>(lanes: bool, x: Seq<N>, w: Seq<N>) -> N {
    if lanes {
        x[0].plus(lane_dot(x.skip(1), w))
    } else {
        running_dot(x[0], w, x.skip(1), 0, w.len() as int)
    }
}

/// `a - f * b`: fused in whole blocks with lanes, one by one without.
pub open spec fn sub_scaled<N: Number>(lanes: bool, a: Seq<N>, b: Seq<N>, f: N) -> Seq<N> {
    if lanes {
        lane_sub_scaled(a, b, f)
    } else {
        Seq::new(a.len(), |i: int| a[i].minus(f.times(b[i])))
    }
}

/// `x - t (w . x) w` for the reflector with tail `w`.
pub open spec fn reflected<N: Number>(lanes: bool, x: Seq<N>, w: Seq<N>, t: N) -> Seq<N> {
    let dot = overlap(lanes, x, w);
    if dot.same(N::nought()) {
        x
    } else {
        let f = t.times(dot);
        seq![x[0].minus(f)] + sub_scaled(lanes, x.skip(1), w, f)
    }
}

/// `x` with its entries from `i` on reflected.
pub open spec fn reflected_below<N: Number>(
    lanes: bool,
    x: Seq<N>,
    i: int,
    w: Seq<N>,
    t: N,
) -> Seq<N> {
    x.take(i) + reflected(lanes, x.skip(i), w, t)
}

/// Column `i` after its own step.
pub open spec fn cleared<N: Number>(x: Seq<N>, i: int) -> Seq<N> {
    let h = reflector(x.skip(i));
    x.take(i) + (seq![h.beta] + h.tail)
}

/// One step of the R pass: column `i` is cleared and every later column reflected.
pub open spec fn house_step<N: Number>(lanes: bool, cols: Seq<Seq<N>>, i: int) -> Seq<Seq<N>> {
    let h = reflector(cols[i].skip(i));
    Seq::new(
        cols.len(),
        |j: int|
            if j == i {
                cleared(cols[i], i)
            } else if j > i && !h.tau.same(N::nought()) {
                reflected_below(lanes, cols[j], i, h.tail, h.tau)
            } else {
                cols[j]
            },
    )
}

/// The columns after the first `steps` steps of the R pass.
pub open spec fn house<N: Number>(lanes: bool, cols: Seq<Seq<N>>, steps: int) -> Seq<Seq<N>>
    decreases steps,
{
    if steps <= 0 {
        cols
    } else {
        house_step(lanes, house(lanes, cols, steps - 1), steps - 1)
    }
}

/// The factor of step `i` of the R pass.
pub open spec fn house_tau<N: Number>(lanes: bool, cols: Seq<Seq<N>>, i: int) -> N {
    reflector(house(lanes, cols, i)[i].skip(i)).tau
}

/// The factors of the first `steps` steps.
pub open spec fn house_taus<N: Number>(lanes: bool, cols: Seq<Seq<N>>, steps: int) -> Seq<N> {
    Seq::new(steps as nat, |i: int| house_tau(lanes, cols, i))
}

/// All columns have `m` entries.
pub open spec fn tall<N>(cols: Seq<Seq<N>>, m: int) -> bool {
    forall|j: int| 0 <= j < cols.len() ==> (#[trigger] cols[j]).len() == m
}

/// Reflection keeps the length.
pub proof fn lemma_reflected_len<N: Number>(lanes: bool, x: Seq<N>, w: Seq<N>, t: N)
    requires
        x.len() == w.len() + 1,
    ensures
        reflected(lanes, x, w, t).len() == x.len(),
{
}

/// The steps keep the shape.
pub proof fn lemma_house_shape<N: Number>(lanes: bool, cols: Seq<Seq<N>>, m: int, steps: int)
    requires
        tall(cols, m),
        0 <= steps <= m,
        steps <= cols.len(),
    ensures
        house(lanes, cols, steps).len() == cols.len(),
        tall(house(lanes, cols, steps), m),
    decreases steps,
{
    if steps > 0 {
        let i = steps - 1;
        lemma_house_shape(lanes, cols, m, i);
        let before = house(lanes, cols, i);
        let h = reflector(before[i].skip(i));
        assert forall|j: int| 0 <= j < cols.len() implies (#[trigger] house(
            lanes,
            cols,
            steps,
        )[j]).len() == m by {
            if j > i {
                lemma_reflected_len(lanes, before[j].skip(i), h.tail, h.tau);
            }
        }
    }
}

/// Turns a column, from its diagonal entry down, into `beta` and the reflector's tail, and
/// returns the factor.
pub fn make_reflector<T: Scalar>(col: &mut [T]) -> (tau: T)
    requires
        old(col)@.len() > 0,
    ensures
        tau == reflector(old(col)@).tau,
        final(col)@ == seq![reflector(old(col)@).beta] + reflector(old(col)@).tail,
{
    let ghost v = col@;
    let rows = col.len();
    let mut norm2 = T::zero();
    let mut r: usize = 0;
    while r < rows
        invariant
            r <= rows,
            rows == v.len(),
            col@ == v,
            norm2 == running_dot(T::nought(), v, v, 0, r as int),
        decreases rows - r,
    {
        norm2 = norm2.add(col[r].mul(col[r]));
        r += 1;
    }
    let norm = norm2.sqrt();
    let v0 = col[0];
    let sign = if v0.less(T::zero()) {
        T::one()
    } else {
        T::one().neg()
    };
    let u0 = v0.sub(sign.mul(norm));
    let tau = if T::zero().less(norm2) {
        u0.neg().div(norm).mul(sign)
    } else {
        T::zero()
    };
    if !u0.equal(T::zero()) {
        r = 1;
        while r < rows
            invariant
                1 <= r <= rows,
                rows == v.len(),
                col@.len() == rows,
                forall|x: int| 1 <= x < r ==> #[trigger] col@[x] == v[x].over(u0),
                forall|x: int| r <= x < rows ==> #[trigger] col@[x] == v[x],
            decreases rows - r,
        {
            col[r] = col[r].div(u0);
            r += 1;
        }
    }
    col[0] = sign.mul(norm);
    assert(col@ =~= seq![reflector(v).beta] + reflector(v).tail);
    tau
}

/// Reflects a column in place: `col = col - t (refl . col) refl`.
pub fn r_update_col<T: Scalar>(col: &mut [T], refl: &[T], t: T, lanes: bool)
    requires
        old(col)@.len() == refl@.len() + 1,
    ensures
        final(col)@ == reflected(lanes, old(col)@, refl@, t),
{
    let ghost x = col@;
    let rows = col.len();
    let dot = if lanes {
        assert(x.subrange(1, rows as int) =~= x.skip(1));
        col[0].add(dot_pair(&col[1..rows], refl))
    } else {
        let mut dot = col[0];
        let mut r: usize = 0;
        while r < refl.len()
            invariant
                r <= refl.len(),
                col@ == x,
                x.len() == refl.len() + 1,
                dot == running_dot(x[0], refl@, x.skip(1), 0, r as int),
            decreases refl.len() - r,
        {
            dot = dot.add(refl[r].mul(col[1 + r]));
            r += 1;
        }
        dot
    };
    if !dot.equal(T::zero()) {
        let f = t.mul(dot);
        col[0] = col[0].sub(f);
        if lanes {
            let (_head, tail) = col.split_at_mut(1);
            assert(tail@ =~= x.skip(1));
            apply_pair(tail, refl, f);
        } else {
            let mut r: usize = 0;
            while r < refl.len()
                invariant
                    r <= refl.len(),
                    x.len() == refl.len() + 1,
                    col@.len() == x.len(),
                    col@[0] == x[0].minus(f),
                    forall|i: int|
                        1 <= i <= r ==> #[trigger] col@[i] == x[i].minus(f.times(refl@[i - 1])),
                    forall|i: int| r < i < x.len() ==> #[trigger] col@[i] == x[i],
                decreases refl.len() - r,
            {
                col[1 + r] = col[1 + r].sub(f.mul(refl[r]));
                r += 1;
            }
        }
        assert(col@ =~= reflected(lanes, x, refl@, t));
    }
}

/// The owner's part of step `i`: clears column `at` of the buffer, which stands for column `i` of
/// the matrix, and returns the factor and the reflector's tail.
pub fn own_reflector<T: Scalar>(cols: &mut [T], m: usize, at: usize, i: usize) -> (r: (T, Vec<T>))
    requires
        i < m,
        (at + 1) * m <= old(cols)@.len(),
    ensures
        final(cols)@ == old(cols)@.take(at * m) + cleared(
            old(cols)@.subrange(at * m, (at + 1) * m),
            i as int,
        ) + old(cols)@.skip((at + 1) * m),
        r.0 == reflector(old(cols)@.subrange(at * m, (at + 1) * m).skip(i as int)).tau,
        r.1@ == reflector(old(cols)@.subrange(at * m, (at + 1) * m).skip(i as int)).tail,
{
    let ghost flat = cols@;
    let _total = cols.len();
    proof {
        lemma_panel_bounds(m as int, at + 1, at as int);
        assert(at * m <= _total);
    }
    let (_before, rest) = cols.split_at_mut(at * m);
    let (col, _after) = rest.split_at_mut(m);
    assert(col@ =~= flat.subrange(at * m, (at + 1) * m));
    let (_above, below) = col.split_at_mut(i);
    let tau = make_reflector(below);
    let tail = vstd::slice::slice_to_vec(&below[1..below.len()]);
    (tau, tail)
}

/// Reflects column `at` of the buffer from row `i` down.
pub fn update_column<T: Scalar>(
    cols: &mut [T],
    m: usize,
    at: usize,
    i: usize,
    refl: &[T],
    t: T,
    lanes: bool,
)
    requires
        i < m,
        refl@.len() == m - i - 1,
        (at + 1) * m <= old(cols)@.len(),
    ensures
        final(cols)@ == old(cols)@.take(at * m) + reflected_below(
            lanes,
            old(cols)@.subrange(at * m, (at + 1) * m),
            i as int,
            refl@,
            t,
        ) + old(cols)@.skip((at + 1) * m),
{
    let ghost flat = cols@;
    let _total = cols.len();
    proof {
        lemma_panel_bounds(m as int, at + 1, at as int);
        assert(at * m <= _total);
    }
    let (_before, rest) = cols.split_at_mut(at * m);
    let (col, _after) = rest.split_at_mut(m);
    assert(col@ =~= flat.subrange(at * m, (at + 1) * m));
    let (_above, below) = col.split_at_mut(i);
    r_update_col(below, refl, t, lanes);
}

/// Every thread's part of step `i`: reflects its own columns `from..count`.
pub fn update_columns<T: Scalar>(
    cols: &mut [T],
    m: usize,
    count: usize,
    from: usize,
    i: usize,
    refl: &[T],
    t: T,
    lanes: bool,
)
    requires
        i < m,
        refl@.len() == m - i - 1,
        old(cols)@.len() == count * m,
        from <= count,
    ensures
        final(cols)@.len() == old(cols)@.len(),
        panels(final(cols)@, m as int, count as int) == Seq::new(
            count as nat,
            |j: int|
                if j >= from {
                    reflected_below(
                        lanes,
                        panels(old(cols)@, m as int, count as int)[j],
                        i as int,
                        refl@,
                        t,
                    )
                } else {
                    panels(old(cols)@, m as int, count as int)[j]
                },
        ),
{
    let ghost start = panels(cols@, m as int, count as int);
    proof {
        assert forall|c: int| 0 <= c < count implies (#[trigger] start[c]).len() == m by {
            lemma_panel_bounds(m as int, count as int, c);
        }
    }
    let mut j: usize = from;
    while j < count
        invariant
            from <= j <= count,
            i < m,
            refl@.len() == m - i - 1,
            cols@.len() == count * m,
            start.len() == count,
            forall|c: int| 0 <= c < count ==> (#[trigger] start[c]).len() == m,
            panels(cols@, m as int, count as int) == Seq::new(
                count as nat,
                |c: int|
                    if from <= c < j {
                        reflected_below(lanes, start[c], i as int, refl@, t)
                    } else {
                        start[c]
                    },
            ),
        decreases count - j,
    {
        let ghost flat = cols@;
        proof {
            lemma_panel_bounds(m as int, count as int, j as int);
        }
        update_column(cols, m, j, i, refl, t, lanes);
        proof {
            let piece = reflected_below(lanes, start[j as int], i as int, refl@, t);
            assert(panels(flat, m as int, count as int)[j as int] == start[j as int]);
            lemma_reflected_len(lanes, start[j as int].skip(i as int), refl@, t);
            lemma_panel_replace(flat, m as int, count as int, j as int, piece);
            assert(panels(cols@, m as int, count as int) =~= Seq::new(
                count as nat,
                |c: int|
                    if from <= c < j + 1 {
                        reflected_below(lanes, start[c], i as int, refl@, t)
                    } else {
                        start[c]
                    },
            ));
        }
        j += 1;
    }
    assert(panels(cols@, m as int, count as int) =~= Seq::new(
        count as nat,
        |c: int|
            if c >= from {
                reflected_below(lanes, start[c], i as int, refl@, t)
            } else {
                start[c]
            },
    ));
}

/// The number of rows that are copied at a time.
pub const BLOCK_ROWS: usize = 32;

/// Copies the row-major `m x n` matrix `a` into a column-major buffer, in blocks of rows.
pub fn load_columns<T: Scalar>(a: &[T], m: usize, n: usize) -> (r: Vec<T>)
    requires
        a.len() >= m * n,
    ensures
        r.len() == n * m,
        panels(r@, m as int, n as int) == columns(a@, m as int, n as int),
{
    assert(n * m == m * n) by (nonlinear_arith);
    let mut r = filled(T::zero(), n * m);
    let mut base: usize = 0;
    while base < m
        invariant
            base <= m,
            n * m == m * n,
            a.len() >= m * n,
            r.len() == n * m,
            forall|c: int, x: int|
                0 <= c < n && 0 <= x < base ==> #[trigger] r@[cell(c, m as int, x)] == a@[cell(
                    x,
                    n as int,
                    c,
                )],
        decreases m - base,
    {
        let end: usize = if m - base > BLOCK_ROWS {
            base + BLOCK_ROWS
        } else {
            m
        };
        let mut c: usize = 0;
        while c < n
            invariant
                c <= n,
                base < end <= m,
                n * m == m * n,
                a.len() >= m * n,
                r.len() == n * m,
                forall|d: int, x: int|
                    0 <= d < n && 0 <= x && (x < base || d < c && x < end)
                        ==> #[trigger] r@[cell(d, m as int, x)] == a@[cell(x, n as int, d)],
            decreases n - c,
        {
            let mut row: usize = base;
            while row < end
                invariant
                    c < n,
                    base <= row <= end <= m,
                    n * m == m * n,
                    a.len() >= m * n,
                    r.len() == n * m,
                    forall|d: int, x: int|
                        0 <= d < n && 0 <= x && (x < base || d < c && x < end || d == c && x
                            < row) ==> #[trigger] r@[cell(d, m as int, x)] == a@[cell(
                            x,
                            n as int,
                            d,
                        )],
                decreases end - row,
            {
                proof {
                    lemma_cell_bound(m as int, n as int, row as int, c as int);
                    lemma_cell_bound(n as int, m as int, c as int, row as int);
                }
                let ghost before = r@;
                let v = a[row * n + c];
                r[c * m + row] = v;
                proof {
                    assert forall|d: int, x: int|
                        0 <= d < n && 0 <= x && (x < base || d < c && x < end || d == c && x < row
                            + 1) implies #[trigger] r@[cell(d, m as int, x)] == a@[cell(
                        x,
                        n as int,
                        d,
                    )] by {
                        lemma_cell_bound(n as int, m as int, d, x);
                        if cell(d, m as int, x) == cell(c as int, m as int, row as int) {
                            lemma_cell_unique(m as int, d, x, c as int, row as int);
                        } else {
                            assert(before[cell(d, m as int, x)] == a@[cell(x, n as int, d)]);
                        }
                    }
                }
                row += 1;
            }
            c += 1;
        }
        base = end;
    }
    proof {
        let lhs = panels(r@, m as int, n as int);
        let rhs = columns(a@, m as int, n as int);
        assert forall|c: int| 0 <= c < n implies #[trigger] lhs[c] == rhs[c] by {
            lemma_panel_bounds(m as int, n as int, c);
            assert forall|x: int| 0 <= x < m implies lhs[c][x] == rhs[c][x] by {
                assert(lhs[c][x] == r@[cell(c, m as int, x)]);
            }
            assert(lhs[c] =~= rhs[c]);
        }
        assert(lhs =~= rhs);
    }
    r
}

/// Householder R pass over the row-major `m x n` matrix `a`.
///
/// Returns the column-major work buffer, the factors of the reflections and the number of steps,
/// `min(m, n)`. With many rows and steps the columns are shared out among `n_threads`; the result
/// does not depend on their number.
pub fn r_pass<T: Scalar>(a: &[T], m: usize, n: usize, n_threads: usize, lanes: bool) -> (res: (
    Vec<T>,
    Vec<T>,
    usize,
))
    requires
        a.len() >= m * n,
    ensures
        res.2 == lesser(m as int, n as int),
        res.0.len() == n * m,
        panels(res.0@, m as int, n as int) == house(
            lanes,
            columns(a@, m as int, n as int),
            res.2 as int,
        ),
        res.1@ == house_taus(lanes, columns(a@, m as int, n as int), res.2 as int),
{
    let k: usize = if m <= n {
        m
    } else {
        n
    };
    let mut r = load_columns(a, m, n);
    let ranges = share(n, n_threads, shares_steps(n_threads, k, m));
    let taus = wave_steps(r.as_mut_slice(), m, n, ranges.as_slice(), lanes);
    (r, taus, k)
}

/// `x` with the first `steps` reflections applied, the last one first.
pub open spec fn unwound<N: Number>(
    lanes: bool,
    cols: Seq<Seq<N>>,
    taus: Seq<N>,
    x: Seq<N>,
    steps: int,
) -> Seq<N>
    decreases steps,
{
    if steps <= 0 {
        x
    } else {
        let i = steps - 1;
        let y = if taus[i].same(N::nought()) {
            x
        } else {
            reflected_below(lanes, x, i, cols[i].skip(i + 1), taus[i])
        };
        unwound(lanes, cols, taus, y, i)
    }
}

/// The unit vector along axis `c` of `m`; all zero where there is no such axis.
pub open spec fn axis<N: Number>(m: int, c: int) -> Seq<N> {
    Seq::new(
        m as nat,
        |r: int|
            if r == c {
                N::unit()
            } else {
                N::nought()
            },
    )
}

/// Whether row `i` of R and column `i` of Q change sign, to make the diagonal of R nonnegative.
pub open spec fn flips<N: Number>(cols: Seq<Seq<N>>, i: int) -> bool {
    cols[i][i].below(N::nought())
}

/// Column `c` of Q, from the columns that the R pass left behind.
pub open spec fn q_column<N: Number>(
    lanes: bool,
    cols: Seq<Seq<N>>,
    taus: Seq<N>,
    m: int,
    k: int,
    c: int,
) -> Seq<N> {
    let x = unwound(lanes, cols, taus, axis(m, c), k);
    if flips(cols, c) {
        x.map_values(|v: N| v.negated())
    } else {
        x
    }
}

/// The columns of Q, from the columns that the R pass left behind.
pub open spec fn q_columns<N: Number>(
    lanes: bool,
    cols: Seq<Seq<N>>,
    taus: Seq<N>,
    m: int,
    k: int,
) -> Seq<Seq<N>> {
    Seq::new(k as nat, |c: int| q_column(lanes, cols, taus, m, k, c))
}

/// Entry `(i, c)` of R, from the columns that the R pass left behind.
pub open spec fn r_entry<N: Number>(cols: Seq<Seq<N>>, i: int, c: int) -> N {
    if c < i {
        N::nought()
    } else if flips(cols, i) {
        cols[c][i].negated()
    } else {
        cols[c][i]
    }
}

/// One column of the Q pass: all reflections, the last one first.
pub fn q_pass_col<T: Scalar>(
    col: &mut [T],
    r: &[T],
    tau: &[T],
    m: usize,
    n: usize,
    k: usize,
    lanes: bool,
)
    requires
        k <= m,
        k <= n,
        r.len() == n * m,
        tau.len() >= k,
        old(col)@.len() == m,
    ensures
        final(col)@ == unwound(lanes, panels(r@, m as int, n as int), tau@, old(col)@, k as int),
        final(col)@.len() == m,
{
    let ghost x0 = col@;
    let ghost cols = panels(r@, m as int, n as int);
    let mut steps: usize = k;
    while steps > 0
        invariant
            steps <= k,
            k <= m,
            k <= n,
            r.len() == n * m,
            tau.len() >= k,
            col@.len() == m,
            cols == panels(r@, m as int, n as int),
            unwound(lanes, cols, tau@, x0, k as int) == unwound(
                lanes,
                cols,
                tau@,
                col@,
                steps as int,
            ),
        decreases steps,
    {
        let i: usize = steps - 1;
        let t = tau[i];
        let ghost x = col@;
        if !t.equal(T::zero()) {
            proof {
                lemma_panel_bounds(m as int, n as int, i as int);
                assert(cols[i as int].skip(i + 1) =~= r@.subrange(i * m + i + 1, (i + 1) * m));
                lemma_reflected_len(lanes, x.skip(i as int), cols[i as int].skip(i + 1), t);
            }
            let w = &r[i * m + i + 1..(i + 1) * m];
            let (_above, below) = col.split_at_mut(i);
            r_update_col(below, w, t, lanes);
        }
        steps = i;
    }
}

/// Negates every entry.
pub fn negate<T: Scalar>(col: &mut [T])
    ensures
        final(col)@ == old(col)@.map_values(|v: T| v.negated()),
{
    let ghost x = col@;
    let n = col.len();
    let mut i: usize = 0;
    while i < n
        invariant
            i <= n,
            n == x.len(),
            col@.len() == n,
            forall|j: int| 0 <= j < i ==> #[trigger] col@[j] == x[j].negated(),
            forall|j: int| i <= j < n ==> #[trigger] col@[j] == x[j],
        decreases n - i,
    {
        col[i] = col[i].neg();
        i += 1;
    }
    assert(col@ =~= x.map_values(|v: T| v.negated()));
}

/// The unit vector along axis `c` of `m`; all zero where there is no such axis.
pub fn unit_axis<T: Scalar>(m: usize, c: usize) -> (v: Vec<T>)
    ensures
        v@ == axis::<T>(m as int, c as int),
{
    let mut v = filled(T::zero(), m);
    if c < m {
        v[c] = T::one();
    }
    assert(v@ =~= axis::<T>(m as int, c as int));
    v
}

/// Columns `lo..hi` of Q, one after the other.
pub fn q_chunk<T: Scalar>(
    r: &[T],
    tau: &[T],
    m: usize,
    n: usize,
    k: usize,
    lo: usize,
    hi: usize,
    lanes: bool,
) -> (q: Vec<T>)
    requires
        k <= m,
        k <= n,
        r.len() == n * m,
        tau.len() == k,
        lo <= hi <= k,
    ensures
        q.len() == (hi - lo) * m,
        panels(q@, m as int, hi - lo) == q_columns(
            lanes,
            panels(r@, m as int, n as int),
            tau@,
            m as int,
            k as int,
        ).subrange(lo as int, hi as int),
{
    let ghost cols = panels(r@, m as int, n as int);
    let ghost want = q_columns(lanes, cols, tau@, m as int, k as int);
    let mut q: Vec<T> = Vec::new();
    let mut c: usize = lo;
    assert(0 * m == 0) by (nonlinear_arith);
    while c < hi
        invariant
            lo <= c <= hi <= k,
            k <= m,
            k <= n,
            r.len() == n * m,
            tau.len() == k,
            cols == panels(r@, m as int, n as int),
            want == q_columns(lanes, cols, tau@, m as int, k as int),
            q.len() == (c - lo) * m,
            panels(q@, m as int, c - lo) == want.subrange(lo as int, c as int),
        decreases hi - c,
    {
        let mut col = unit_axis::<T>(m, c);
        q_pass_col(col.as_mut_slice(), r, tau, m, n, k, lanes);
        proof {
            lemma_cell_bound(n as int, m as int, c as int, c as int);
            lemma_panel_bounds(m as int, n as int, c as int);
            assert(cols[c as int][c as int] == r@[c * m + c]);
        }
        if r[c * m + c].less(T::zero()) {
            negate(col.as_mut_slice());
        }
        assert(col@ =~= want[c as int]);
        let ghost before = q@;
        let ghost piece = col@;
        q.append(&mut col);
        proof {
            lemma_panel_bounds(m as int, c - lo + 1, c - lo);
            assert forall|d: int| 0 <= d < c - lo + 1 implies #[trigger] panels(
                q@,
                m as int,
                c - lo + 1,
            )[d] == want.subrange(lo as int, c + 1)[d] by {
                lemma_panel_bounds(m as int, c - lo + 1, d);
                if d < c - lo {
                    lemma_panel_bounds(m as int, c - lo, d);
                    assert(panels(before, m as int, c - lo)[d] == want.subrange(
                        lo as int,
                        c as int,
                    )[d]);
                    assert(q@.subrange(d * m, (d + 1) * m) =~= before.subrange(
                        d * m,
                        (d + 1) * m,
                    ));
                } else {
                    assert(q@.subrange(d * m, (d + 1) * m) =~= piece);
                }
            }
            assert(panels(q@, m as int, c - lo + 1) =~= want.subrange(lo as int, c + 1));
        }
        c += 1;
    }
    q
}

/// Q pass: builds the reduced `Q` from the reflectors and returns it row-major, `m x k`. With many
/// rows and columns these are shared out among `n_threads`; the result does not depend on their
/// number.
pub fn q_pass<T: Scalar>(
    r: &[T],
    tau: &[T],
    m: usize,
    n: usize,
    k: usize,
    n_threads: usize,
    lanes: bool,
) -> (q: Vec<T>)
    requires
        k <= m,
        k <= n,
        r.len() == n * m,
        tau.len() == k,
    ensures
        q.len() == m * k,
        columns(q@, m as int, k as int) == q_columns(
            lanes,
            panels(r@, m as int, n as int),
            tau@,
            m as int,
            k as int,
        ),
{
    let ghost want = q_columns(lanes, panels(r@, m as int, n as int), tau@, m as int, k as int);
    let ranges = share(k, n_threads, shares_steps(n_threads, k, m));
    let mut q: Vec<T> = Vec::new();
    let mut c: usize = 0;
    let ghost mut reached: int = 0;
    assert(0 * m == 0) by (nonlinear_arith);
    assert(panels(q@, m as int, 0) =~= want.subrange(0, 0));
    while c < ranges.len()
        invariant
            c <= ranges.len(),
            k <= m,
            k <= n,
            r.len() == n * m,
            tau.len() == k,
            tiled(ranges@, k as int),
            want == q_columns(lanes, panels(r@, m as int, n as int), tau@, m as int, k as int),
            0 <= reached <= k,
            reached == if c == 0 {
                0
            } else {
                ranges@[c - 1].1 as int
            },
            q.len() == reached * m,
            panels(q@, m as int, reached) == want.subrange(0, reached),
        decreases ranges.len() - c,
    {
        let (lo, hi) = ranges[c];
        proof {
            if c > 0 {
                assert(ranges@[c - 1].1 == ranges@[c - 1 + 1].0);
            }
            assert(lo == reached && lo <= hi && hi <= k) by {
                let x = ranges@[c as int];
            }
        }
        let mut part = q_chunk(r, tau, m, n, k, lo, hi, lanes);
        let ghost before = q@;
        let ghost piece = part@;
        q.append(&mut part);
        proof {
            lemma_joined(before, piece, m as int, lo as int, hi - lo);
            assert(panels(q@, m as int, hi as int) =~= want.subrange(0, hi as int));
            reached = hi as int;
        }
        c += 1;
    }
    assert(want.subrange(0, k as int) =~= want);
    transpose(q.as_slice(), k, m)
}

/// Extracts the upper-triangular factor `R` from the reflector storage, row-major `k x n`, with
/// the signs that [`q_pass`] gives to Q, so that `A = Q R` is preserved.
pub fn r_k_from_r<T: Scalar>(r: &[T], m: usize, n: usize, k: usize) -> (out: Vec<T>)
    requires
        k <= m,
        k <= n,
        r.len() == n * m,
    ensures
        out.len() == k * n,
        forall|i: int, c: int|
            0 <= i < k && 0 <= c < n ==> #[trigger] out@[cell(i, n as int, c)] == r_entry(
                panels(r@, m as int, n as int),
                i,
                c,
            ),
{
    let ghost cols = panels(r@, m as int, n as int);
    let mut out: Vec<T> = Vec::new();
    let mut i: usize = 0;
    assert(0 * n == 0) by (nonlinear_arith);
    while i < k
        invariant
            i <= k,
            k <= m,
            k <= n,
            r.len() == n * m,
            cols == panels(r@, m as int, n as int),
            out.len() == i * n,
            forall|i2: int, c: int|
                0 <= i2 < i && 0 <= c < n ==> #[trigger] out@[cell(i2, n as int, c)] == r_entry(
                    cols,
                    i2,
                    c,
                ),
        decreases k - i,
    {
        proof {
            lemma_cell_bound(n as int, m as int, i as int, i as int);
            lemma_panel_bounds(m as int, n as int, i as int);
            assert(cols[i as int][i as int] == r@[i * m + i]);
        }
        let flip = r[i * m + i].less(T::zero());
        let mut c: usize = 0;
        while c < n
            invariant
                i < k,
                c <= n,
                k <= m,
                k <= n,
                r.len() == n * m,
                cols == panels(r@, m as int, n as int),
                flip == flips(cols, i as int),
                out.len() == cell(i as int, n as int, c as int),
                forall|i2: int, c2: int|
                    0 <= i2 <= i && 0 <= c2 < n && (i2 < i || c2 < c) ==> #[trigger] out@[cell(
                        i2,
                        n as int,
                        c2,
                    )] == r_entry(cols, i2, c2),
            decreases n - c,
        {
            let ghost before = out@;
            if c < i {
                out.push(T::zero());
            } else {
                proof {
                    lemma_cell_bound(n as int, m as int, c as int, i as int);
                    lemma_panel_bounds(m as int, n as int, c as int);
                    assert(cols[c as int][i as int] == r@[c * m + i]);
                }
                let v = r[c * m + i];
                if flip {
                    out.push(v.neg());
                } else {
                    out.push(v);
                }
            }
            proof {
                assert forall|i2: int, c2: int|
                    0 <= i2 <= i && 0 <= c2 < n && (i2 < i || c2 < c
                        + 1) implies #[trigger] out@[cell(i2, n as int, c2)] == r_entry(
                    cols,
                    i2,
                    c2,
                ) by {
                    assert(0 <= i2 * n) by (nonlinear_arith)
                        requires
                            0 <= i2,
                            0 <= n,
                    ;
                    if i2 < i {
                        lemma_line_order(n as int, i2, i as int);
                        assert(before[cell(i2, n as int, c2)] == r_entry(cols, i2, c2));
                    } else if c2 < c {
                        assert(before[cell(i2, n as int, c2)] == r_entry(cols, i2, c2));
                    }
                }
            }
            c += 1;
        }
        assert((i + 1) * n == i * n + n) by (nonlinear_arith);
        i += 1;
    }
    out
}

/// The smaller of two lengths.
pub open spec fn lesser(m: int, n: int) -> int {
    if m <= n {
        m
    } else {
        n
    }
}

/// The columns of the orthonormal factor of the matrix with columns `cols`, of `m` entries each.
pub open spec fn qr_q<N: Number>(lanes: bool, cols: Seq<Seq<N>>, m: int) -> Seq<Seq<N>> {
    let k = lesser(m, cols.len() as int);
    q_columns(lanes, house(lanes, cols, k), house_taus(lanes, cols, k), m, k)
}

/// Entry `(i, c)` of the triangular factor of the matrix with columns `cols`, of `m` entries each.
pub open spec fn qr_r<N: Number>(lanes: bool, cols: Seq<Seq<N>>, m: int, i: int, c: int) -> N {
    r_entry(house(lanes, cols, lesser(m, cols.len() as int)), i, c)
}

/// Householder QR of a row-major `m x n` matrix.
///
/// Returns `(q, r)` where `q` is the reduced `m x min(m, n)` orthonormal factor and `r` the
/// upper-triangular `min(m, n) x n` factor with a nonnegative diagonal, both row-major.
pub fn qr_cpu<T: Scalar>(a: &[T], m: usize, n: usize, lanes: bool) -> (res: (Vec<T>, Vec<T>))
    requires
        a.len() >= m * n,
    ensures
        res.0.len() == m * lesser(m as int, n as int),
        columns(res.0@, m as int, lesser(m as int, n as int)) == qr_q(
            lanes,
            columns(a@, m as int, n as int),
            m as int,
        ),
        res.1.len() == lesser(m as int, n as int) * n,
        forall|i: int, c: int|
            0 <= i < lesser(m as int, n as int) && 0 <= c < n ==> #[trigger] res.1@[cell(
                i,
                n as int,
                c,
            )] == qr_r(lanes, columns(a@, m as int, n as int), m as int, i, c),
{
    let (r, tau, k) = r_pass(a, m, n, 1, lanes);
    let r_k = r_k_from_r(r.as_slice(), m, n, k);
    let q = q_pass(r.as_slice(), tau.as_slice(), m, n, k, 1, lanes);
    (q, r_k)
}

} // verus!
