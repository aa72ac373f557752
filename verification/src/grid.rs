//! Matrices in flat buffers.
//!
//! A row-major `m x n` matrix keeps row `r`, column `c` at `r * n + c`. A buffer cut into
//! consecutive pieces of one length, its [`panels`], is a matrix by rows (row-major) or by columns
//! (column-major).

use crate::scalar::Scalar;
use vstd::prelude::*;

verus! {

/// The place of entry `j` of line `i`, with lines of `width` entries.
pub open spec fn cell(i: int, width: int, j: int) -> int {
    i * width + j
}

/// The consecutive pieces of length `len` of a buffer: `count` of them.
pub open spec fn panels<N>(flat: Seq<N>, len: int, count: int) -> Seq<Seq<N>> {
    Seq::new(count as nat, |c: int| flat.subrange(c * len, (c + 1) * len))
}

/// The columns of the row-major `m x n` matrix in `a`.
pub open spec fn columns<N>(a: Seq<N>, m: int, n: int) -> Seq<Seq<N>> {
    Seq::new(n as nat, |c: int| Seq::new(m as nat, |r: int| a[cell(r, n, c)]))
}

/// Entries lie inside their buffer.
pub proof fn lemma_cell_bound(lines: int, width: int, i: int, j: int)
    requires
        0 <= i < lines,
        0 <= j < width,
    ensures
        0 <= cell(i, width, j) < lines * width,
        i * width + width <= lines * width,
        0 <= i * width,
{
    assert(i * width + width <= lines * width) by (nonlinear_arith)
        requires
            0 <= i < lines,
            0 <= j < width,
    ;
    assert(0 <= i * width) by (nonlinear_arith)
        requires
            0 <= i,
            0 <= j < width,
    ;
}

/// A place belongs to one entry only.
pub proof fn lemma_cell_unique(width: int, i: int, j: int, i2: int, j2: int)
    requires
        0 <= j < width,
        0 <= j2 < width,
        cell(i, width, j) == cell(i2, width, j2),
    ensures
        i == i2,
        j == j2,
{
    assert(i == i2) by (nonlinear_arith)
        requires
            0 <= j < width,
            0 <= j2 < width,
            i * width + j == i2 * width + j2,
    ;
}

/// Line and entry of a place, by division.
pub proof fn lemma_cell_div(width: int, i: int, j: int)
    requires
        0 <= j < width,
    ensures
        cell(i, width, j) / width == i,
        cell(i, width, j) % width == j,
{
    vstd::arithmetic::div_mod::lemma_fundamental_div_mod_converse(
        cell(i, width, j),
        width,
        i,
        j,
    );
}

/// Lines do not overlap, and are in order.
pub proof fn lemma_line_order(width: int, i: int, i2: int)
    requires
        0 <= width,
        i < i2,
    ensures
        (i + 1) * width <= i2 * width,
        (i + 1) * width == i * width + width,
{
    assert((i + 1) * width <= i2 * width) by (nonlinear_arith)
        requires
            0 <= width,
            i + 1 <= i2,
    ;
    assert((i + 1) * width == i * width + width) by (nonlinear_arith);
}

/// A panel's bounds.
pub proof fn lemma_panel_bounds(len: int, count: int, c: int)
    requires
        0 <= len,
        0 <= c < count,
    ensures
        0 <= c * len,
        (c + 1) * len == c * len + len,
        (c + 1) * len <= count * len,
{
    assert(0 <= c * len) by (nonlinear_arith)
        requires
            0 <= len,
            0 <= c,
    ;
    assert((c + 1) * len == c * len + len) by (nonlinear_arith);
    assert((c + 1) * len <= count * len) by (nonlinear_arith)
        requires
            0 <= len,
            c + 1 <= count,
    ;
}

/// Replacing one panel replaces one line of the matrix.
pub proof fn lemma_panel_replace<N>(flat: Seq<N>, len: int, count: int, c: int, piece: Seq<N>)
    requires
        0 <= len,
        0 <= c < count,
        flat.len() == count * len,
        piece.len() == len,
    ensures
        (flat.take(c * len) + piece + flat.skip((c + 1) * len)).len() == flat.len(),
        panels(flat.take(c * len) + piece + flat.skip((c + 1) * len), len, count) == panels(
            flat,
            len,
            count,
        ).update(c, piece),
{
    lemma_panel_bounds(len, count, c);
    let flat2 = flat.take(c * len) + piece + flat.skip((c + 1) * len);
    assert(flat2.len() == flat.len());
    let old_panels = panels(flat, len, count);
    let new_panels = panels(flat2, len, count);
    assert forall|d: int| 0 <= d < count implies #[trigger] new_panels[d] == old_panels.update(
        c,
        piece,
    )[d] by {
        lemma_panel_bounds(len, count, d);
        if d < c {
            lemma_line_order(len, d, c);
        } else if d > c {
            lemma_line_order(len, c, d);
        }
        assert(new_panels[d] =~= old_panels.update(c, piece)[d]);
    }
    assert(new_panels =~= old_panels.update(c, piece));
}

/// Appending a piece appends a line to the matrix.
pub proof fn lemma_panel_push<N>(flat: Seq<N>, len: int, count: int, piece: Seq<N>)
    requires
        0 <= len,
        0 <= count,
        flat.len() == count * len,
        piece.len() == len,
    ensures
        (flat + piece).len() == (count + 1) * len,
        panels(flat + piece, len, count + 1) == panels(flat, len, count).push(piece),
{
    let flat2 = flat + piece;
    let lhs = panels(flat2, len, count + 1);
    let rhs = panels(flat, len, count).push(piece);
    lemma_panel_bounds(len, count + 1, count);
    assert forall|d: int| 0 <= d < count + 1 implies #[trigger] lhs[d] == rhs[d] by {
        lemma_panel_bounds(len, count + 1, d);
        if d < count {
            lemma_panel_bounds(len, count, d);
        }
        assert(lhs[d] =~= rhs[d]);
    }
    assert(lhs =~= rhs);
}

/// Entries before the one that is written next lie before it in the buffer.
pub proof fn lemma_before(width: int, r: int, i: int, r2: int, i2: int)
    requires
        0 <= r2 <= r,
        0 <= i < width,
        0 <= i2 < width,
        r2 < r || i2 <= i,
    ensures
        0 <= cell(r2, width, i2),
        r2 < r || i2 < i ==> cell(r2, width, i2) < cell(r, width, i),
{
    assert(0 <= r2 * width) by (nonlinear_arith)
        requires
            0 <= r2,
            0 <= width,
    ;
    if r2 < r {
        lemma_line_order(width, r2, r);
    }
}

/// A vector of `n` copies of `x`.
pub fn filled<T: Copy>(x: T, n: usize) -> (v: Vec<T>)
    ensures
        v@ == Seq::new(n as nat, |i: int| x),
{
    let mut v: Vec<T> = Vec::with_capacity(n);
    let mut i: usize = 0;
    while i < n
        invariant
            i <= n,
            v@ == Seq::new(i as nat, |j: int| x),
        decreases n - i,
    {
        v.push(x);
        i += 1;
        assert(v@ =~= Seq::new(i as nat, |j: int| x));
    }
    v
}

/// Row-major transpose of an `n x m` matrix into `m x n`.
pub fn transpose<T: Scalar>(a: &[T], n: usize, m: usize) -> (out: Vec<T>)
    requires
        a.len() >= n * m,
    ensures
        out.len() == m * n,
        forall|r: int, c: int|
            0 <= r < n && 0 <= c < m ==> #[trigger] out@[cell(c, n as int, r)] == a@[cell(
                r,
                m as int,
                c,
            )],
        columns(out@, m as int, n as int) == panels(a@, m as int, n as int),
{
    let mut out: Vec<T> = Vec::new();
    let mut c: usize = 0;
    assert(0 * n == 0) by (nonlinear_arith);
    while c < m
        invariant
            c <= m,
            a.len() >= n * m,
            out.len() == c * n,
            forall|r2: int, c2: int|
                0 <= r2 < n && 0 <= c2 < c ==> #[trigger] out@[cell(c2, n as int, r2)] == a@[cell(
                    r2,
                    m as int,
                    c2,
                )],
        decreases m - c,
    {
        let mut r: usize = 0;
        while r < n
            invariant
                c < m,
                r <= n,
                a.len() >= n * m,
                out.len() == cell(c as int, n as int, r as int),
                forall|r2: int, c2: int|
                    0 <= r2 < n && 0 <= c2 && (c2 < c || c2 == c && r2 < r)
                        ==> #[trigger] out@[cell(c2, n as int, r2)] == a@[cell(
                        r2,
                        m as int,
                        c2,
                    )],
            decreases n - r,
        {
            proof {
                lemma_cell_bound(n as int, m as int, r as int, c as int);
            }
            let ghost before = out@;
            out.push(a[r * m + c]);
            proof {
                assert forall|r2: int, c2: int|
                    0 <= r2 < n && 0 <= c2 && (c2 < c || c2 == c && r2
                        < r + 1) implies #[trigger] out@[cell(c2, n as int, r2)] == a@[cell(
                    r2,
                    m as int,
                    c2,
                )] by {
                    if c2 < c {
                        lemma_cell_bound(c as int, n as int, c2, r2);
                        assert(c * n >= 0) by (nonlinear_arith)
                            requires
                                n >= 0,
                                c >= 0,
                        ;
                        assert(out@[cell(c2, n as int, r2)] == before[cell(c2, n as int, r2)]);
                    } else if r2 < r {
                        assert(0 <= c2 * n) by (nonlinear_arith)
                            requires
                                n >= 0,
                                c2 >= 0,
                        ;
                        assert(out@[cell(c2, n as int, r2)] == before[cell(c2, n as int, r2)]);
                    }
                }
            }
            r += 1;
        }
        assert((c + 1) * n == c * n + n) by (nonlinear_arith);
        c += 1;
    }
    proof {
        assert(m * n == n * m) by (nonlinear_arith);
        let lhs = columns(out@, m as int, n as int);
        let rhs = panels(a@, m as int, n as int);
        assert forall|r: int| 0 <= r < n implies #[trigger] lhs[r] == rhs[r] by {
            lemma_panel_bounds(m as int, n as int, r);
            assert forall|c2: int| 0 <= c2 < m implies lhs[r][c2] == rhs[r][c2] by {
                assert(lhs[r][c2] == out@[cell(c2, n as int, r)]);
            }
            assert(lhs[r] =~= rhs[r]);
        }
        assert(lhs =~= rhs);
    }
    out
}

/// Two buffers of lines, one behind the other.
pub proof fn lemma_joined<N>(x: Seq<N>, y: Seq<N>, len: int, a: int, b: int)
    requires
        0 <= len,
        0 <= a,
        0 <= b,
        x.len() == a * len,
        y.len() == b * len,
    ensures
        (x + y).len() == (a + b) * len,
        panels(x + y, len, a + b) == panels(x, len, a) + panels(y, len, b),
{
    assert((a + b) * len == a * len + b * len) by (nonlinear_arith);
    let lhs = panels(x + y, len, a + b);
    let rhs = panels(x, len, a) + panels(y, len, b);
    assert forall|c: int| 0 <= c < a + b implies #[trigger] lhs[c] == rhs[c] by {
        lemma_panel_bounds(len, a + b, c);
        if c < a {
            lemma_panel_bounds(len, a, c);
            assert((x + y).subrange(c * len, (c + 1) * len) =~= x.subrange(
                c * len,
                (c + 1) * len,
            ));
        } else {
            lemma_panel_bounds(len, b, c - a);
            assert(c * len == a * len + (c - a) * len) by (nonlinear_arith);
            assert((x + y).subrange(c * len, (c + 1) * len) =~= y.subrange(
                (c - a) * len,
                (c - a + 1) * len,
            ));
        }
    }
    assert(lhs =~= rhs);
}

} // verus!
