//! The triangular factor by Cholesky, and the orthonormal one by substitution.
//!
//! With `G = A^T A` the factor `R` of `G = R^T R` is the triangular factor of `A`, and
//! `Q = A R^-1`. `R` is small and is found in one go; the rows of `Q` do not depend on each other.

#[allow(unused_imports)]
use crate::grid::{cell, lemma_cell_bound, lemma_cell_unique, lemma_line_order, lemma_panel_bounds};
use crate::grid::filled;
#[allow(unused_imports)]
use crate::matmul::row_of;
#[allow(unused_imports)]
use crate::scalar::Number;
use crate::scalar::Scalar;
use vstd::prelude::*;

verus! {

/// The smallest square that a diagonal entry is the root of: `10^-30`.
pub const FLOOR_PLACES: u32 = 30;

/// `g(j, i)` less the products of the first `l` rows of the factor, taken off one by one.
pub open spec fn chol_acc<N: Number>(g: Seq<N>, k: int, j: int, i: int, l: int) -> N
    decreases l, 0int,
{
    if l <= 0 {
        g[cell(j, k, i)]
    } else {
        chol_acc(g, k, j, i, l - 1).minus(
            chol_at(g, k, l - 1, j).times(chol_at(g, k, l - 1, i)),
        )
    }
}

/// Entry `(j, i)`, `j <= i`, of the Cholesky factor of the row-major `k x k` matrix `g`.
///
/// The square on the diagonal is kept from falling below `10^-30`, where rounding leaves a
/// rank-deficient `g`.
pub open spec fn chol_at<N: Number>(g: Seq<N>, k: int, j: int, i: int) -> N
    decreases
            j,
            if i == j {
                1int
            } else {
                2int
            },
{
    if i == j {
        chol_acc(g, k, j, j, j).larger(N::tenth_pow(FLOOR_PLACES)).root()
    } else {
        chol_acc(g, k, j, i, j).over(chol_at(g, k, j, j))
    }
}

/// `g(j, i)` less the products of the rows of `r` above row `j`.
fn chol_rest<T: Scalar>(g: &[T], r: &[T], k: usize, j: usize, i: usize) -> (acc: T)
    requires
        j <= i < k,
        g.len() >= k * k,
        r.len() == k * k,
        forall|l: int, c: int|
            0 <= l < j && l <= c < k ==> #[trigger] r@[cell(l, k as int, c)] == chol_at(
                g@,
                k as int,
                l,
                c,
            ),
    ensures
        acc == chol_acc(g@, k as int, j as int, i as int, j as int),
{
    proof {
        lemma_cell_bound(k as int, k as int, j as int, i as int);
    }
    let mut acc = g[j * k + i];
    let mut l: usize = 0;
    while l < j
        invariant
            l <= j <= i < k,
            r.len() == k * k,
            forall|l2: int, c: int|
                0 <= l2 < j && l2 <= c < k ==> #[trigger] r@[cell(l2, k as int, c)] == chol_at(
                    g@,
                    k as int,
                    l2,
                    c,
                ),
            acc == chol_acc(g@, k as int, j as int, i as int, l as int),
        decreases j - l,
    {
        proof {
            lemma_cell_bound(k as int, k as int, l as int, j as int);
            lemma_cell_bound(k as int, k as int, l as int, i as int);
            assert(r@[cell(l as int, k as int, j as int)] == chol_at(
                g@,
                k as int,
                l as int,
                j as int,
            ));
            assert(r@[cell(l as int, k as int, i as int)] == chol_at(
                g@,
                k as int,
                l as int,
                i as int,
            ));
        }
        acc = acc.sub(r[l * k + j].mul(r[l * k + i]));
        l += 1;
    }
    acc
}

/// Cholesky of a symmetric positive-definite row-major `k x k` matrix: the upper-triangular
/// factor `R` of `G = R^T R`, row-major. Only the upper half of `g` is read.
pub fn cholesky_host<T: Scalar>(g: &[T], k: usize) -> (r: Vec<T>)
    requires
        g.len() >= k * k,
    ensures
        r.len() == k * k,
        forall|j: int, i: int|
            0 <= j <= i < k ==> #[trigger] r@[cell(j, k as int, i)] == chol_at(
                g@,
                k as int,
                j,
                i,
            ),
        forall|j: int, i: int|
            0 <= i < j < k ==> #[trigger] r@[cell(j, k as int, i)] == T::nought(),
{
    let mut r: Vec<T> = filled(T::zero(), k * k);
    proof {
        assert forall|j: int, i: int| 0 <= j < k && 0 <= i < k implies #[trigger] r@[cell(
            j,
            k as int,
            i,
        )] == T::nought() by {
            lemma_cell_bound(k as int, k as int, j, i);
        }
    }
    let mut j: usize = 0;
    while j < k
        invariant
            j <= k,
            g.len() >= k * k,
            r.len() == k * k,
            forall|l: int, c: int|
                0 <= l < j && l <= c < k ==> #[trigger] r@[cell(l, k as int, c)] == chol_at(
                    g@,
                    k as int,
                    l,
                    c,
                ),
            forall|l: int, c: int|
                0 <= l < k && 0 <= c < k && (l >= j || c < l) ==> #[trigger] r@[cell(
                    l,
                    k as int,
                    c,
                )] == T::nought(),
        decreases k - j,
    {
        let acc = chol_rest(g, r.as_slice(), k, j, j);
        let d = acc.max(T::decimal(FLOOR_PLACES)).sqrt();
        let ghost before = r@;
        proof {
            lemma_cell_bound(k as int, k as int, j as int, j as int);
        }
        r.set(j * k + j, d);
        proof {
            assert forall|l: int, c: int|
                0 <= l < k && 0 <= c < k && (l != j || c != j) implies #[trigger] r@[cell(
                l,
                k as int,
                c,
            )] == before[cell(l, k as int, c)] by {
                lemma_cell_bound(k as int, k as int, l, c);
                if cell(l, k as int, c) == cell(j as int, k as int, j as int) {
                    lemma_cell_unique(k as int, l, c, j as int, j as int);
                }
            }
        }
        let mut i: usize = j + 1;
        while i < k
            invariant
                j < i <= k,
                g.len() >= k * k,
                r.len() == k * k,
                d == chol_at(g@, k as int, j as int, j as int),
                forall|l: int, c: int|
                    0 <= l <= j && l <= c < k && (l < j || c < i) ==> #[trigger] r@[cell(
                        l,
                        k as int,
                        c,
                    )] == chol_at(g@, k as int, l, c),
                forall|l: int, c: int|
                    0 <= l < k && 0 <= c < k && (l > j || c < l) ==> #[trigger] r@[cell(
                        l,
                        k as int,
                        c,
                    )] == T::nought(),
            decreases k - i,
        {
            let acc2 = chol_rest(g, r.as_slice(), k, j, i);
            let ghost mid = r@;
            proof {
                lemma_cell_bound(k as int, k as int, j as int, i as int);
            }
            r.set(j * k + i, acc2.div(d));
            proof {
                assert forall|l: int, c: int|
                    0 <= l < k && 0 <= c < k && (l != j || c != i) implies #[trigger] r@[cell(
                    l,
                    k as int,
                    c,
                )] == mid[cell(l, k as int, c)] by {
                    lemma_cell_bound(k as int, k as int, l, c);
                    if cell(l, k as int, c) == cell(j as int, k as int, i as int) {
                        lemma_cell_unique(k as int, l, c, j as int, i as int);
                    }
                }
            }
            i += 1;
        }
        j += 1;
    }
    r
}

/// Entry `j` of the row `a` less the products of the first `i` entries solved for with column `j`
/// of `r`, taken off one by one.
pub open spec fn solve_acc<N: Number>(a: Seq<N>, r: Seq<N>, k: int, j: int, i: int) -> N
    decreases i, 0int,
{
    if i <= 0 {
        a[j]
    } else {
        solve_acc(a, r, k, j, i - 1).minus(r[cell(i - 1, k, j)].times(solve_at(a, r, k, i - 1)))
    }
}

/// Entry `j` of the row `q` with `q R = a`, for the upper-triangular row-major `k x k` matrix `r`.
pub open spec fn solve_at<N: Number>(a: Seq<N>, r: Seq<N>, k: int, j: int) -> N
    decreases j, 1int,
{
    solve_acc(a, r, k, j, j).over(r[cell(j, k, j)])
}

/// The row `q` with `q R = a`, by forward substitution, four entries at a time: the four
/// accumulators of a block do not wait for each other.
pub fn qsolve_row<T: Scalar>(a: &[T], r: &[T], k: usize) -> (q: Vec<T>)
    requires
        a.len() == k,
        r.len() >= k * k,
    ensures
        q.len() == k,
        forall|j: int| 0 <= j < k ==> #[trigger] q@[j] == solve_at(a@, r@, k as int, j),
{
    let mut q: Vec<T> = Vec::with_capacity(k);
    let mut j: usize = 0;
    while j < k
        invariant
            j <= k,
            a.len() == k,
            r.len() >= k * k,
            q.len() == j,
            forall|x: int| 0 <= x < j ==> #[trigger] q@[x] == solve_at(a@, r@, k as int, x),
        decreases k - j,
    {
        let w1 = k - j > 1;
        let w2 = k - j > 2;
        let w3 = k - j > 3;
        let mut acc0 = a[j];
        let mut acc1 = if w1 {
            a[j + 1]
        } else {
            T::zero()
        };
        let mut acc2 = if w2 {
            a[j + 2]
        } else {
            T::zero()
        };
        let mut acc3 = if w3 {
            a[j + 3]
        } else {
            T::zero()
        };
        let mut i: usize = 0;
        while i < j
            invariant
                i <= j < k,
                r.len() >= k * k,
                w1 == (k - j > 1),
                w2 == (k - j > 2),
                w3 == (k - j > 3),
                q.len() == j,
                forall|x: int| 0 <= x < j ==> #[trigger] q@[x] == solve_at(a@, r@, k as int, x),
                acc0 == solve_acc(a@, r@, k as int, j as int, i as int),
                w1 ==> acc1 == solve_acc(a@, r@, k as int, j + 1, i as int),
                w2 ==> acc2 == solve_acc(a@, r@, k as int, j + 2, i as int),
                w3 ==> acc3 == solve_acc(a@, r@, k as int, j + 3, i as int),
            decreases j - i,
        {
            let qi = q[i];
            proof {
                lemma_panel_bounds(k as int, k as int, i as int);
            }
            let base = i * k;
            acc0 = acc0.sub(r[base + j].mul(qi));
            if w1 {
                acc1 = acc1.sub(r[base + j + 1].mul(qi));
            }
            if w2 {
                acc2 = acc2.sub(r[base + j + 2].mul(qi));
            }
            if w3 {
                acc3 = acc3.sub(r[base + j + 3].mul(qi));
            }
            i += 1;
        }
        proof {
            lemma_panel_bounds(k as int, k as int, j as int);
        }
        let row0 = j * k;
        let q0 = acc0.div(r[row0 + j]);
        let ghost (ga, gr, gk, gj) = (a@, r@, k as int, j as int);
        assert(q0 == solve_at(ga, gr, gk, gj));
        q.push(q0);
        if w1 {
            proof {
                lemma_panel_bounds(k as int, k as int, j + 1);
            }
            let row1 = row0 + k;
            let q1 = acc1.sub(r[row0 + j + 1].mul(q0)).div(r[row1 + j + 1]);
            assert(solve_acc(ga, gr, gk, gj + 1, gj + 1) == acc1.minus(
                gr[cell(gj, gk, gj + 1)].times(q0),
            ));
            assert(q1 == solve_at(ga, gr, gk, gj + 1));
            q.push(q1);
            if w2 {
                proof {
                    lemma_panel_bounds(k as int, k as int, j + 2);
                }
                let row2 = row1 + k;
                let q2 = acc2.sub(r[row0 + j + 2].mul(q0)).sub(r[row1 + j + 2].mul(q1)).div(
                    r[row2 + j + 2],
                );
                assert(solve_acc(ga, gr, gk, gj + 2, gj + 1) == acc2.minus(
                    gr[cell(gj, gk, gj + 2)].times(q0),
                ));
                assert(q2 == solve_at(ga, gr, gk, gj + 2));
                q.push(q2);
                if w3 {
                    proof {
                        lemma_panel_bounds(k as int, k as int, j + 3);
                    }
                    let row3 = row2 + k;
                    let q3 = acc3.sub(r[row0 + j + 3].mul(q0)).sub(r[row1 + j + 3].mul(q1)).sub(
                        r[row2 + j + 3].mul(q2),
                    ).div(r[row3 + j + 3]);
                    assert(solve_acc(ga, gr, gk, gj + 3, gj + 1) == acc3.minus(
                        gr[cell(gj, gk, gj + 3)].times(q0),
                    ));
                    assert(solve_acc(ga, gr, gk, gj + 3, gj + 2) == acc3.minus(
                        gr[cell(gj, gk, gj + 3)].times(q0),
                    ).minus(gr[cell(gj + 1, gk, gj + 3)].times(q1)));
                    assert(q3 == solve_at(ga, gr, gk, gj + 3));
                    q.push(q3);
                }
            }
        }
        if w3 {
            j += 4;
        } else {
            j = k;
        }
    }
    q
}

/// `Q = A R^-1` for the row-major `m x k` matrix `a`, row by row.
pub fn qsolve<T: Scalar>(a: &[T], r: &[T], m: usize, k: usize) -> (q: Vec<T>)
    requires
        a.len() >= m * k,
        r.len() >= k * k,
    ensures
        q.len() == m * k,
        forall|row: int, j: int|
            0 <= row < m && 0 <= j < k ==> #[trigger] q@[cell(row, k as int, j)] == solve_at(
                row_of(a@, k as int, row),
                r@,
                k as int,
                j,
            ),
{
    let mut q: Vec<T> = Vec::new();
    let mut row: usize = 0;
    assert(0 * k == 0) by (nonlinear_arith);
    while row < m
        invariant
            row <= m,
            a.len() >= m * k,
            r.len() >= k * k,
            q.len() == row * k,
            forall|x: int, j: int|
                0 <= x < row && 0 <= j < k ==> #[trigger] q@[cell(x, k as int, j)] == solve_at(
                    row_of(a@, k as int, x),
                    r@,
                    k as int,
                    j,
                ),
        decreases m - row,
    {
        proof {
            lemma_panel_bounds(k as int, m as int, row as int);
        }
        let ghost before = q@;
        let mut line = qsolve_row(&a[row * k..(row + 1) * k], r, k);
        let ghost solved = line@;
        q.append(&mut line);
        proof {
            assert forall|x: int, j: int|
                0 <= x < row + 1 && 0 <= j < k implies #[trigger] q@[cell(x, k as int, j)]
                == solve_at(row_of(a@, k as int, x), r@, k as int, j) by {
                assert(0 <= x * k) by (nonlinear_arith)
                    requires
                        0 <= x,
                        0 <= k,
                ;
                if x < row {
                    lemma_line_order(k as int, x, row as int);
                    assert(before[cell(x, k as int, j)] == solve_at(
                        row_of(a@, k as int, x),
                        r@,
                        k as int,
                        j,
                    ));
                } else {
                    assert(q@[cell(x, k as int, j)] == solved[j]);
                }
            }
        }
        row += 1;
    }
    q
}

} // verus!
