//! The product of two matrices in flat buffers.

use crate::algebra::{lemma_one, lemma_zero};
#[allow(unused_imports)]
use crate::exact::{delta, sum};
use crate::exact::{lemma_lane_dot, lemma_sum_ext, lemma_sum_single};
#[allow(unused_imports)]
use crate::grid::{cell, lemma_cell_bound, lemma_line_order, lemma_panel_bounds};
use crate::grid::transpose;
use crate::lanes::dot_pair;
#[allow(unused_imports)]
use crate::lanes::lane_dot;
#[allow(unused_imports)]
use crate::scalar::Number;
use crate::plan::{share, shares_rows};
#[allow(unused_imports)]
use crate::plan::tiled;
use crate::scalar::Scalar;
use vstd::prelude::*;

verus! {

/// Row `j` of the row-major matrix `a` with rows of `width` entries.
pub open spec fn row_of<N>(a: Seq<N>, width: int, j: int) -> Seq<N> {
    a.subrange(j * width, (j + 1) * width)
}

/// Column `i` of the row-major matrix `b` with `height` rows of `width` entries.
pub open spec fn column_of<N>(b: Seq<N>, height: int, width: int, i: int) -> Seq<N> {
    Seq::new(height as nat, |c: int| b[cell(c, width, i)])
}

/// Entry `(j, i)` of the product of `a`, with rows of `kk` entries, and `b`, with `kk` rows of `k`.
pub open spec fn product_entry<N: Number>(
    a: Seq<N>,
    kk: int,
    b: Seq<N>,
    k: int,
    j: int,
    i: int,
) -> N {
    lane_dot(row_of(a, kk, j), column_of(b, kk, k, i))
}

/// Rows `lo..hi` of the product of `a`, with rows of `kk` entries, and the transpose of `bt`, with
/// `k` rows of `kk`; row-major.
pub fn matmul_rows<T: Scalar>(
    a: &[T],
    kk: usize,
    bt: &[T],
    k: usize,
    lo: usize,
    hi: usize,
) -> (out: Vec<T>)
    requires
        lo <= hi,
        a.len() >= hi * kk,
        bt.len() >= k * kk,
    ensures
        out.len() == (hi - lo) * k,
        forall|j: int, i: int|
            0 <= j < hi - lo && 0 <= i < k ==> #[trigger] out@[cell(j, k as int, i)] == lane_dot(
                row_of(a@, kk as int, lo + j),
                row_of(bt@, kk as int, i),
            ),
{
    let mut out: Vec<T> = Vec::new();
    let mut j: usize = lo;
    assert(0 * k == 0) by (nonlinear_arith);
    while j < hi
        invariant
            lo <= j <= hi,
            a.len() >= hi * kk,
            bt.len() >= k * kk,
            out.len() == (j - lo) * k,
            forall|j2: int, i: int|
                0 <= j2 < j - lo && 0 <= i < k ==> #[trigger] out@[cell(j2, k as int, i)]
                    == lane_dot(row_of(a@, kk as int, lo + j2), row_of(bt@, kk as int, i)),
        decreases hi - j,
    {
        proof {
            lemma_panel_bounds(kk as int, hi as int, j as int);
        }
        let arow = &a[j * kk..(j + 1) * kk];
        let mut i: usize = 0;
        while i < k
            invariant
                lo <= j < hi,
                i <= k,
                arow@ == row_of(a@, kk as int, j as int),
                arow.len() == kk,
                bt.len() >= k * kk,
                out.len() == cell(j - lo, k as int, i as int),
                forall|j2: int, i2: int|
                    0 <= j2 <= j - lo && 0 <= i2 < k && (j2 < j - lo || i2 < i)
                        ==> #[trigger] out@[cell(j2, k as int, i2)] == lane_dot(
                        row_of(a@, kk as int, lo + j2),
                        row_of(bt@, kk as int, i2),
                    ),
            decreases k - i,
        {
            let ghost before = out@;
            proof {
                lemma_panel_bounds(kk as int, k as int, i as int);
            }
            let brow = &bt[i * kk..(i + 1) * kk];
            out.push(dot_pair(arow, brow));
            proof {
                assert forall|j2: int, i2: int|
                    0 <= j2 <= j - lo && 0 <= i2 < k && (j2 < j - lo || i2 < i
                        + 1) implies #[trigger] out@[cell(j2, k as int, i2)] == lane_dot(
                    row_of(a@, kk as int, lo + j2),
                    row_of(bt@, kk as int, i2),
                ) by {
                    assert(0 <= j2 * k) by (nonlinear_arith)
                        requires
                            0 <= j2,
                            0 <= k,
                    ;
                    if j2 < j - lo {
                        lemma_line_order(k as int, j2, j - lo);
                        assert(out@[cell(j2, k as int, i2)] == before[cell(j2, k as int, i2)]);
                    } else if i2 < i {
                        assert(out@[cell(j2, k as int, i2)] == before[cell(j2, k as int, i2)]);
                    }
                }
            }
            i += 1;
        }
        assert((j + 1 - lo) * k == (j - lo) * k + k) by (nonlinear_arith);
        j += 1;
    }
    out
}

/// `C = A B` with `A` of `rows x kk` and `B` of `kk x k`, all row-major. `B` is transposed once,
/// for dot products of rows. Many rows are shared out among `n_threads`; the result does not depend
/// on their number.
pub fn matmul_rt<T: Scalar>(
    a: &[T],
    rows: usize,
    kk: usize,
    b: &[T],
    k: usize,
    n_threads: usize,
) -> (out: Vec<T>)
    requires
        a.len() >= rows * kk,
        b.len() >= kk * k,
    ensures
        out.len() == rows * k,
        forall|j: int, i: int|
            0 <= j < rows && 0 <= i < k ==> #[trigger] out@[cell(j, k as int, i)] == product_entry(
                a@,
                kk as int,
                b@,
                k as int,
                j,
                i,
            ),
{
    let bt = transpose(b, kk, k);
    let ranges = share(rows, n_threads, shares_rows(n_threads, rows));
    let mut out: Vec<T> = Vec::new();
    let mut c: usize = 0;
    let ghost mut reached: int = 0;
    assert(0 * k == 0) by (nonlinear_arith);
    while c < ranges.len()
        invariant
            c <= ranges.len(),
            a.len() >= rows * kk,
            bt.len() == k * kk,
            tiled(ranges@, rows as int),
            0 <= reached <= rows,
            reached == if c == 0 {
                0
            } else {
                ranges@[c - 1].1 as int
            },
            out.len() == reached * k,
            forall|j: int, i: int|
                0 <= j < reached && 0 <= i < k ==> #[trigger] out@[cell(j, k as int, i)]
                    == lane_dot(row_of(a@, kk as int, j), row_of(bt@, kk as int, i)),
        decreases ranges.len() - c,
    {
        let (lo, hi) = ranges[c];
        proof {
            if c > 0 {
                assert(ranges@[c - 1].1 == ranges@[c - 1 + 1].0);
            }
            assert(lo == reached && lo <= hi && hi <= rows) by {
                let x = ranges@[c as int];
            }
            assert(hi * kk <= rows * kk) by (nonlinear_arith)
                requires
                    hi <= rows,
            ;
        }
        let mut part = matmul_rows(a, kk, bt.as_slice(), k, lo, hi);
        let ghost before = out@;
        let ghost piece = part@;
        out.append(&mut part);
        proof {
            assert(hi * k == lo * k + (hi - lo) * k) by (nonlinear_arith);
            assert forall|j: int, i: int| 0 <= j < hi && 0 <= i < k implies #[trigger] out@[cell(
                j,
                k as int,
                i,
            )] == lane_dot(row_of(a@, kk as int, j), row_of(bt@, kk as int, i)) by {
                if j < lo {
                    lemma_cell_bound(lo as int, k as int, j, i);
                    assert(before[cell(j, k as int, i)] == out@[cell(j, k as int, i)]);
                } else {
                    lemma_cell_bound(hi - lo, k as int, j - lo, i);
                    assert(j * k == lo * k + (j - lo) * k) by (nonlinear_arith);
                    assert(out@[cell(j, k as int, i)] == piece[cell(j - lo, k as int, i)]);
                }
            }
            reached = hi as int;
        }
        c += 1;
    }
    proof {
        assert forall|j: int, i: int| 0 <= j < rows && 0 <= i < k implies #[trigger] out@[cell(
            j,
            k as int,
            i,
        )] == product_entry(a@, kk as int, b@, k as int, j, i) by {
            lemma_transposed_row(b@, bt@, kk as int, k as int, i);
        }
    }
    out
}

/// A row of the transpose is a column.
pub proof fn lemma_transposed_row<N>(b: Seq<N>, bt: Seq<N>, kk: int, k: int, i: int)
    requires
        0 <= kk,
        0 <= i < k,
        bt.len() == k * kk,
        forall|r: int, c: int|
            0 <= r < kk && 0 <= c < k ==> #[trigger] bt[cell(c, kk, r)] == b[cell(r, k, c)],
    ensures
        row_of(bt, kk, i) == column_of(b, kk, k, i),
{
    lemma_panel_bounds(kk, k, i);
    assert forall|c: int| 0 <= c < kk implies row_of(bt, kk, i)[c] == column_of(b, kk, k, i)[c] by {
        assert(row_of(bt, kk, i)[c] == bt[cell(i, kk, c)]);
    }
    assert(row_of(bt, kk, i) =~= column_of(b, kk, k, i));
}

/// In exact arithmetic an entry of the product is the sum of the products along row and column.
pub proof fn law_matmul(a: Seq<real>, rows: int, kk: int, b: Seq<real>, k: int, j: int, i: int)
    requires
        0 <= kk,
        0 <= j < rows,
        0 <= i < k,
        a.len() >= rows * kk,
    ensures
        product_entry(a, kk, b, k, j, i) == sum(
            kk,
            |c: int| a[cell(j, kk, c)] * b[cell(c, k, i)],
        ),
{
    lemma_panel_bounds(kk, rows, j);
    let x = row_of(a, kk, j);
    let y = column_of(b, kk, k, i);
    lemma_lane_dot(x, y);
    let f = |c: int| x[c] * y[c];
    let g = |c: int| a[cell(j, kk, c)] * b[cell(c, k, i)];
    lemma_sum_ext(kk, f, g);
}

/// In exact arithmetic the product with the unit matrix is the matrix itself.
pub proof fn law_matmul_unit(a: Seq<real>, rows: int, kk: int, b: Seq<real>, j: int, i: int)
    requires
        0 <= j < rows,
        0 <= i < kk,
        a.len() >= rows * kk,
        forall|x: int, y: int|
            0 <= x < kk && 0 <= y < kk ==> #[trigger] b[cell(x, kk, y)] == delta(x, y),
    ensures
        product_entry(a, kk, b, kk, j, i) == a[cell(j, kk, i)],
{
    law_matmul(a, rows, kk, b, kk, j, i);
    let f = |c: int| a[cell(j, kk, c)] * b[cell(c, kk, i)];
    assert forall|c: int| 0 <= c < kk && c != i implies #[trigger] f(c) == 0real by {
        lemma_zero(a[cell(j, kk, c)]);
    }
    lemma_sum_single(kk, f, i);
    lemma_one(a[cell(j, kk, i)]);
}

} // verus!
