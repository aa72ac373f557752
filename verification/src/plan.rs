//! Who does what: how work is shared out among threads, and which matrices are worth a GPU.

use crate::cholesky::cholesky_host;
#[allow(unused_imports)]
use crate::cholesky::chol_at;
#[allow(unused_imports)]
use crate::grid::{cell, lemma_cell_bound};
#[allow(unused_imports)]
use crate::house::lesser;
use crate::layer::load_mat;
#[allow(unused_imports)]
use crate::outcome::Outcomes;
#[allow(unused_imports)]
use crate::scalar::WordNumber;
use crate::scalar::WordScalar;
use crate::tensor::{dims, from_words, matmul, transposed, Mat};
#[allow(unused_imports)]
use crate::tensor::Grid;
#[allow(unused_imports)]
use crate::words::{loaded, lowered};
use crate::words::store;
use vstd::prelude::*;

verus! {

/// The most threads that are used.
pub const MAX_THREADS: usize = 12;

/// The fewest steps of a factorisation that are worth sharing out.
pub const PARALLEL_STEPS: usize = 64;

/// The fewest rows that are worth sharing out.
pub const PARALLEL_ROWS: usize = 1024;

/// The threads of a work group on the GPU; each of them owns a row.
pub const GROUP_ROWS: usize = 256;

/// The thread budget on a machine with `available` threads, or with an unknown number.
pub fn thread_count(available: Option<usize>) -> (n: usize)
    ensures
        n == match available {
            Some(p) => if p <= MAX_THREADS {
                p
            } else {
                MAX_THREADS
            },
            None => 1,
        },
{
    match available {
        Some(p) => {
            if p <= MAX_THREADS {
                p
            } else {
                MAX_THREADS
            }
        },
        None => 1,
    }
}

/// Whether the `k` steps of a factorisation of `m` rows are shared out.
pub fn shares_steps(n_threads: usize, k: usize, m: usize) -> (r: bool)
    ensures
        r == (n_threads > 1 && k >= PARALLEL_STEPS && m >= PARALLEL_ROWS),
{
    n_threads > 1 && k >= PARALLEL_STEPS && m >= PARALLEL_ROWS
}

/// Whether the rows of a product are shared out.
pub fn shares_rows(n_threads: usize, rows: usize) -> (r: bool)
    ensures
        r == (n_threads > 1 && rows >= PARALLEL_ROWS),
{
    n_threads > 1 && rows >= PARALLEL_ROWS
}

/// `count / parts`, rounded up.
pub open spec fn rounded_up(count: int, parts: int) -> int {
    (count + parts - 1) / parts
}

/// What rounding up means.
pub proof fn lemma_rounded_up(count: int, parts: int)
    requires
        0 <= count,
        0 < parts,
    ensures
        count <= rounded_up(count, parts) * parts,
        (rounded_up(count, parts) - 1) * parts < count,
        0 <= rounded_up(count, parts) <= count,
        count > 0 ==> rounded_up(count, parts) > 0,
{
    let r = rounded_up(count, parts);
    let top = count + parts - 1;
    vstd::arithmetic::div_mod::lemma_fundamental_div_mod(top, parts);
    vstd::arithmetic::div_mod::lemma_mod_bound(top, parts);
    vstd::arithmetic::mul::lemma_mul_is_commutative(parts, r);
    assert((r - 1) * parts == r * parts - parts) by (nonlinear_arith);
    assert(r >= 0) by (nonlinear_arith)
        requires
            r * parts > -parts,
            parts > 0,
    ;
    assert(r <= count) by (nonlinear_arith)
        requires
            (r - 1) * parts < count,
            parts > 0,
            count >= 0,
    ;
    assert(count > 0 ==> r > 0) by (nonlinear_arith)
        requires
            count <= r * parts,
            parts > 0,
    ;
}

/// `count / parts`, rounded up.
fn ceiling(count: usize, parts: usize) -> (r: usize)
    requires
        parts > 0,
    ensures
        r == rounded_up(count as int, parts as int),
{
    let q = count / parts;
    let rem = count % parts;
    proof {
        let (c, p) = (count as int, parts as int);
        vstd::arithmetic::div_mod::lemma_fundamental_div_mod(c, p);
        vstd::arithmetic::mul::lemma_mul_is_commutative(p, q as int);
        lemma_rounded_up(c, p);
        let r = rounded_up(c, p);
        let want: int = if rem == 0 {
            q as int
        } else {
            q + 1
        };
        assert(r == want) by (nonlinear_arith)
            requires
                p > 0,
                c == q * p + rem,
                0 <= rem < p,
                c <= r * p,
                (r - 1) * p < c,
                want == (if rem == 0 {
                    q as int
                } else {
                    q + 1
                }),
        ;
    }
    if rem == 0 {
        q
    } else {
        q + 1
    }
}

/// The ranges are `0..chunk`, `chunk..2 chunk`, and so on up to `count`.
pub open spec fn shared_out(ranges: Seq<(usize, usize)>, count: int, chunk: int) -> bool {
    &&& ranges.len() == rounded_up(count, chunk)
    &&& forall|c: int|
        0 <= c < ranges.len() ==> {
            &&& (#[trigger] ranges[c]).0 == c * chunk
            &&& ranges[c].1 == lesser((c + 1) * chunk, count)
        }
}

/// Shares `count` lines out among at most `n_threads` threads: ranges of one length, the last of
/// them shorter where the lines do not come out even.
pub fn chunk_ranges(count: usize, n_threads: usize) -> (ranges: Vec<(usize, usize)>)
    requires
        n_threads > 0,
        count > 0,
    ensures
        shared_out(ranges@, count as int, rounded_up(count as int, n_threads as int)),
        tiled(ranges@, count as int),
        ranges.len() <= n_threads,
{
    let chunk = ceiling(count, n_threads);
    let parts = ceiling_of(count, chunk, n_threads);
    let mut ranges: Vec<(usize, usize)> = Vec::with_capacity(parts);
    let mut lo: usize = 0;
    let mut c: usize = 0;
    proof {
        lemma_rounded_up(count as int, chunk as int);
    }
    assert(0 * chunk == 0) by (nonlinear_arith);
    while c < parts
        invariant
            c <= parts,
            chunk > 0,
            parts == rounded_up(count as int, chunk as int),
            (parts - 1) * chunk < count <= parts * chunk,
            c < parts ==> lo == c * chunk,
            ranges.len() == c,
            forall|x: int|
                0 <= x < c ==> {
                    &&& (#[trigger] ranges@[x]).0 == x * chunk
                    &&& ranges@[x].1 == lesser((x + 1) * chunk, count as int)
                },
        decreases parts - c,
    {
        proof {
            assert(c * chunk <= (parts - 1) * chunk) by (nonlinear_arith)
                requires
                    c <= parts - 1,
                    chunk > 0,
            ;
            assert((c + 1) * chunk == c * chunk + chunk) by (nonlinear_arith);
            assert(c + 1 < parts ==> (c + 1) * chunk <= (parts - 1) * chunk) by (nonlinear_arith)
                requires
                    chunk > 0,
            ;
        }
        let hi: usize = if count - lo > chunk {
            lo + chunk
        } else {
            count
        };
        ranges.push((lo, hi));
        lo = hi;
        c += 1;
    }
    proof {
        lemma_tiled(ranges@, count as int, chunk as int);
    }
    ranges
}

/// The number of chunks: not more than there are threads.
fn ceiling_of(count: usize, chunk: usize, n_threads: usize) -> (parts: usize)
    requires
        n_threads > 0,
        count > 0,
        chunk == rounded_up(count as int, n_threads as int),
    ensures
        chunk > 0,
        parts == rounded_up(count as int, chunk as int),
        parts <= n_threads,
{
    proof {
        lemma_rounded_up(count as int, n_threads as int);
        lemma_rounded_up(count as int, chunk as int);
        let parts = rounded_up(count as int, chunk as int);
        vstd::arithmetic::mul::lemma_mul_is_commutative(chunk as int, n_threads as int);
        assert(parts <= n_threads) by (nonlinear_arith)
            requires
                (parts - 1) * chunk < count,
                count <= n_threads * chunk,
                chunk > 0,
        ;
    }
    ceiling(count, chunk)
}

/// Every line belongs to one range, and to one only.
pub proof fn law_shared_out(ranges: Seq<(usize, usize)>, count: int, chunk: int, x: int)
    requires
        0 < chunk,
        0 <= x < count,
        shared_out(ranges, count, chunk),
    ensures
        exists|c: int| 0 <= c < ranges.len() && (#[trigger] ranges[c]).0 <= x < ranges[c].1,
        forall|c: int, d: int|
            0 <= c < ranges.len() && 0 <= d < ranges.len() && (#[trigger] ranges[c]).0 <= x
                < ranges[c].1 && (#[trigger] ranges[d]).0 <= x < ranges[d].1 ==> c == d,
{
    lemma_rounded_up(count, chunk);
    let c = x / chunk;
    vstd::arithmetic::div_mod::lemma_fundamental_div_mod(x, chunk);
    vstd::arithmetic::div_mod::lemma_mod_bound(x, chunk);
    vstd::arithmetic::mul::lemma_mul_is_commutative(chunk, c);
    assert((c + 1) * chunk == c * chunk + chunk) by (nonlinear_arith);
    assert(0 <= c < ranges.len()) by (nonlinear_arith)
        requires
            c * chunk <= x < c * chunk + chunk,
            0 <= x < count,
            count <= ranges.len() * chunk,
            chunk > 0,
    ;
    assert(ranges[c].0 <= x < ranges[c].1);
    assert forall|e: int, d: int|
        0 <= e < ranges.len() && 0 <= d < ranges.len() && (#[trigger] ranges[e]).0 <= x
            < ranges[e].1 && (#[trigger] ranges[d]).0 <= x < ranges[d].1 implies e == d by {
        assert(e == d) by (nonlinear_arith)
            requires
                e * chunk <= x < (e + 1) * chunk,
                d * chunk <= x < (d + 1) * chunk,
                chunk > 0,
        ;
    }
}

/// The ranges follow one another, from 0 up to `count`.
pub open spec fn tiled(ranges: Seq<(usize, usize)>, count: int) -> bool {
    &&& ranges.len() == 0 ==> count == 0
    &&& ranges.len() > 0 ==> ranges[0].0 == 0 && ranges.last().1 == count
    &&& forall|c: int|
        0 <= c < ranges.len() ==> (#[trigger] ranges[c]).0 <= ranges[c].1 && ranges[c].1 <= count
    &&& forall|c: int|
        0 <= c < ranges.len() - 1 ==> (#[trigger] ranges[c]).1 == ranges[c + 1].0
}

/// Ranges of one length follow one another.
pub proof fn lemma_tiled(ranges: Seq<(usize, usize)>, count: int, chunk: int)
    requires
        0 < chunk,
        0 <= count,
        shared_out(ranges, count, chunk),
    ensures
        tiled(ranges, count),
{
    lemma_rounded_up(count, chunk);
    let len = ranges.len() as int;
    assert(0 * chunk == 0) by (nonlinear_arith);
    assert forall|c: int| 0 <= c < len implies (#[trigger] ranges[c]).0 <= ranges[c].1
        && ranges[c].1 <= count && (c + 1 < len ==> ranges[c].1 == (c + 1) * chunk) by {
        assert((c + 1) * chunk == c * chunk + chunk) by (nonlinear_arith);
        assert(c * chunk <= (len - 1) * chunk) by (nonlinear_arith)
            requires
                c <= len - 1,
                chunk > 0,
        ;
        assert(c + 1 < len ==> (c + 1) * chunk <= (len - 1) * chunk) by (nonlinear_arith)
            requires
                chunk > 0,
        ;
    }
    if len > 0 {
        assert(ranges[0].0 == 0 * chunk);
        assert(ranges[len - 1].1 == lesser((len - 1 + 1) * chunk, count));
    } else {
        assert(count == 0) by (nonlinear_arith)
            requires
                count <= len * chunk,
                len == 0,
                0 <= count,
        ;
    }
    assert forall|c: int| 0 <= c < len - 1 implies (#[trigger] ranges[c]).1 == ranges[c + 1].0 by {
        assert(ranges[c + 1].0 == (c + 1) * chunk);
    }
}

/// Every line up to the end of range `c` belongs to a range.
pub proof fn lemma_owner(ranges: Seq<(usize, usize)>, count: int, c: int, x: int)
    requires
        tiled(ranges, count),
        0 <= c < ranges.len(),
        0 <= x < ranges[c].1,
    ensures
        exists|d: int| 0 <= d < ranges.len() && (#[trigger] ranges[d]).0 <= x < ranges[d].1,
    decreases c,
{
    if ranges[c].0 > x {
        assert(c > 0);
        assert(ranges[c - 1].1 == ranges[c - 1 + 1].0);
        lemma_owner(ranges, count, c - 1, x);
    }
}

/// The ranges of `count` lines: among `n_threads` threads where that is worth it, else one.
pub fn share(count: usize, n_threads: usize, worth: bool) -> (ranges: Vec<(usize, usize)>)
    ensures
        tiled(ranges@, count as int),
        if worth && n_threads > 0 && count > 0 {
            shared_out(ranges@, count as int, rounded_up(count as int, n_threads as int))
        } else {
            ranges@ == seq![(0usize, count)]
        },
{
    if worth && n_threads > 0 && count > 0 {
        chunk_ranges(count, n_threads)
    } else {
        vec![(0usize, count)]
    }
}

/// Whether a matrix of `m` rows and `k` columns is factored on the GPU: with fewer rows or columns
/// the way there and back costs more than it saves, and more columns do not fit.
pub fn fits_gpu(m: usize, k: usize) -> (r: bool)
    ensures
        r == (m >= 256 && 16 <= k <= 1024),
{
    !(m == 0 || k == 0 || k > 1024 || m < 256 || k < 16)
}

/// The number of work groups for `m` rows.
pub fn group_count(m: usize) -> (r: usize)
    ensures
        r == rounded_up(m as int, GROUP_ROWS as int),
{
    ceiling(m, GROUP_ROWS)
}

/// Whether a buffer of the given sides and strides is row-major without gaps. The stride of a side
/// of length 1 does not matter.
pub fn is_row_major(rows: usize, cols: usize, row_stride: usize, col_stride: usize) -> (r: bool)
    ensures
        r == ((cols > 1 ==> col_stride == 1) && (rows > 1 ==> row_stride == cols)),
{
    if cols > 1 && col_stride != 1 {
        return false;
    }
    !(rows > 1 && row_stride != cols)
}

/// `r` stores the Cholesky factor of the matrix that `g` stores.
pub open spec fn stores_cholesky<T: WordNumber>(g: Grid<u64>, r: Grid<u64>) -> bool {
    &&& r.sized(g.rows, g.rows)
    &&& forall|j: int, i: int|
        0 <= j < g.rows && 0 <= i < g.rows ==> #[trigger] r.at(j, i) == (if j <= i {
            chol_at(loaded::<T>(lowered(g.cells)), g.rows, j, i)
        } else {
            T::nought()
        }).word() as u64
}

/// `g` can be `A^T A` for the matrix `a`.
pub open spec fn is_gram_grid<N: Outcomes>(a: Grid<N>, g: Grid<N>) -> bool {
    &&& g.sized(a.cols, a.cols)
    &&& forall|i: int, j: int|
        0 <= i < a.cols && 0 <= j < a.cols ==> N::dotted(
            a.column(i),
            a.column(j),
            #[trigger] g.at(i, j),
        )
}

/// The triangular factor that a GPU divides the rows of `matrix` by: Cholesky of `A^T A`. `None`
/// where the matrix is not worth a GPU.
pub fn gram_factor<T: WordScalar>(matrix: &Mat) -> (r: Option<Mat>)
    requires
        matrix.setting().single(),
    ensures
        r is Some <==> matrix@.rows >= 256 && 16 <= matrix@.cols <= 1024,
        r matches Some(f) ==> f.setting() == matrix.setting() && exists|g: Grid<u64>|
            #[trigger] is_gram_grid(matrix@, g) && stores_cholesky::<T>(g, f@),
{
    let (m, k) = dims(matrix);
    if !fits_gpu(m, k) {
        return None;
    }
    let at = transposed(matrix);
    let g = matmul(&at, matrix);
    let g_flat = load_mat::<T>(&g);
    let r_flat = cholesky_host(g_flat.as_slice(), k);
    let r = from_words(store(r_flat.as_slice()), k, k, matrix);
    proof {
        assert forall|i: int, j: int| 0 <= i < k && 0 <= j < k implies u64::dotted(
            matrix@.column(i),
            matrix@.column(j),
            #[trigger] g@.at(i, j),
        ) by {
            assert(at@.row(i) =~= matrix@.column(i));
        }
        assert(is_gram_grid(matrix@, g@));
        assert forall|j: int, i: int| 0 <= j < k && 0 <= i < k implies #[trigger] r@.at(j, i)
            == (if j <= i {
            chol_at(loaded::<T>(lowered(g@.cells)), k as int, j, i)
        } else {
            T::nought()
        }).word() as u64 by {
            lemma_cell_bound(k as int, k as int, j, i);
            assert(r@.at(j, i) == r_flat@[cell(j, k as int, i)].word() as u64);
        }
        assert(stores_cholesky::<T>(g@, r@));
    }
    Some(r)
}

} // verus!
