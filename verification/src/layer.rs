//! A linear layer whose weight is a truncated SVD, `W = U diag(s) V^T`.
//!
//! The dense matrix is never formed. After each step of training the two factors are retracted to
//! orthonormal columns.

use crate::dense::dense_factors;
#[allow(unused_imports)]
use crate::dense::tall_triplets;
#[allow(unused_imports)]
use crate::grid::{cell, columns, lemma_cell_bound, panels};
use crate::house::qr_cpu;
#[allow(unused_imports)]
use crate::house::{lesser, qr_q};
#[allow(unused_imports)]
use crate::outcome::Outcomes;
#[allow(unused_imports)]
use crate::scalar::{Number, WideNumber, WordNumber};
use crate::scalar::{Scalar, WideScalar, WordScalar};
use crate::tensor::{
    dims, from_words, keeps_grad, matmul, minus, powers, row_as_mat, row_from_words, row_of_ones,
    times, transposed, with_grad, words_of, Mat, Row,
};
#[allow(unused_imports)]
use crate::tensor::{unit_entry, word_in, Format, Grid};
#[allow(unused_imports)]
use crate::words::{lemma_lowered, loaded, lowered, raised, stored};
use crate::words::{load, store, unit_words};
use vstd::prelude::*;

verus! {

/// The shape of a layer.
#[derive(Debug, Clone)]
pub struct SctConfig {
    pub in_features: usize,
    pub out_features: usize,
    pub rank: usize,
}

/// The layer: `u` with a row for each input, `v` with a row for each output, a column of both and
/// an entry of `s` for each of the `rank` singular triplets.
pub struct SctLinear {
    pub u: Mat,
    pub s: Row,
    pub v: Mat,
    pub rank: usize,
    pub in_features: usize,
    pub out_features: usize,
}

/// The smallest of a rank and two side lengths.
pub open spec fn clamped(rank: int, inputs: int, outputs: int) -> int {
    lesser(lesser(rank, inputs), outputs)
}

/// The columns of numbers that a matrix of words stores.
pub open spec fn values<T: WordNumber>(m: Grid<u64>) -> Seq<Seq<T>> {
    Seq::new(
        m.cols as nat,
        |c: int| Seq::new(m.rows as nat, |x: int| T::of_word(m.at(x, c) as u32)),
    )
}

/// `r` stores the orthonormal factor of the matrix that `m` stores.
pub open spec fn retracts<T: WordNumber>(lanes: bool, m: Grid<u64>, r: Grid<u64>) -> bool {
    &&& r.sized(m.rows, m.cols)
    &&& forall|x: int, c: int|
        0 <= x < m.rows && 0 <= c < m.cols ==> #[trigger] r.at(x, c) == qr_q(
            lanes,
            values::<T>(m),
            m.rows,
        )[c][x].word() as u64
}

/// The numbers that a matrix stores, row-major.
pub fn load_mat<T: WordScalar>(m: &Mat) -> (xs: Vec<T>)
    requires
        m.setting().single(),
    ensures
        xs@ == loaded::<T>(lowered(m@.cells)),
        xs.len() == m@.rows * m@.cols,
        m@.wf(),
{
    let (_rows, _cols) = dims(m);
    let words = words_of(m);
    proof {
        lemma_lowered(words@);
    }
    load::<T>(words.as_slice())
}

/// The matrix that stores the given numbers, row-major, in the place of `like`: on its device, and
/// with its gradient kept or not as that of `like`.
pub fn store_mat<T: WordScalar>(xs: &[T], rows: usize, cols: usize, like: &Mat) -> (r: Mat)
    requires
        xs.len() == rows * cols,
        like.setting().single(),
    ensures
        r@.sized(rows as int, cols as int),
        r@.cells == raised(stored::<T>(xs@)),
        r.setting() == like.setting(),
        r.keeps_grad() == like.keeps_grad(),
{
    let keep = keeps_grad(like);
    with_grad(from_words(store(xs), rows, cols, like), keep)
}

/// The orthonormal factor of a matrix with no more columns than rows, with the signs that make the
/// diagonal of the triangular one nonnegative.
pub fn orthogonalize_cpu<T: WordScalar>(matrix: &Mat, lanes: bool) -> (r: Mat)
    requires
        matrix@.cols <= matrix@.rows,
        matrix.setting().single(),
    ensures
        retracts::<T>(lanes, matrix@, r@),
        r.setting() == matrix.setting(),
        r.keeps_grad() == matrix.keeps_grad(),
{
    let (m, k) = dims(matrix);
    let a = load_mat::<T>(matrix);
    let (q, _r) = qr_cpu(a.as_slice(), m, k, lanes);
    let out = store_mat(q.as_slice(), m, k, matrix);
    proof {
        let g = matrix@;
        let cols = columns(a@, m as int, k as int);
        let vals = values::<T>(g);
        assert forall|c: int| 0 <= c < k implies #[trigger] cols[c] == vals[c] by {
            assert forall|x: int| 0 <= x < m implies cols[c][x] == vals[c][x] by {
                lemma_cell_bound(m as int, k as int, x, c);
            }
            assert(cols[c] =~= vals[c]);
        }
        assert(cols =~= vals);
        assert forall|x: int, c: int| 0 <= x < m && 0 <= c < k implies #[trigger] out@.at(x, c)
            == qr_q(lanes, vals, m as int)[c][x].word() as u64 by {
            lemma_cell_bound(m as int, k as int, x, c);
            let qc = columns(q@, m as int, k as int);
            assert(qc[c][x] == q@[cell(x, k as int, c)]);
        }
        assert(retracts::<T>(lanes, g, out@));
    }
    out
}

/// `y` can be `(x U) diag(s) V^T`, with `h` for `x U` and `g` for `(x U) diag(s)`.
pub open spec fn passes_through<N: Outcomes>(
    x: Grid<N>,
    u: Grid<N>,
    s: Seq<N>,
    v: Grid<N>,
    h: Grid<N>,
    g: Grid<N>,
    y: Grid<N>,
) -> bool {
    &&& h.sized(x.rows, u.cols)
    &&& g.sized(x.rows, u.cols)
    &&& y.sized(x.rows, v.rows)
    &&& forall|b: int, i: int|
        0 <= b < x.rows && 0 <= i < u.cols ==> N::dotted(
            x.row(b),
            u.column(i),
            #[trigger] h.at(b, i),
        )
    &&& forall|b: int, i: int|
        0 <= b < x.rows && 0 <= i < u.cols ==> N::product(
            h.at(b, i),
            s[i],
            #[trigger] g.at(b, i),
        )
    &&& forall|b: int, o: int|
        0 <= b < x.rows && 0 <= o < v.rows ==> N::dotted(
            g.row(b),
            v.row(o),
            #[trigger] y.at(b, o),
        )
}

/// `y` can be `(x U) diag(s) V^T`.
pub open spec fn passes<N: Outcomes>(
    x: Grid<N>,
    u: Grid<N>,
    s: Seq<N>,
    v: Grid<N>,
    y: Grid<N>,
) -> bool {
    exists|h: Grid<N>, g: Grid<N>| passes_through(x, u, s, v, h, g, y)
}

/// `start`, then the first `n` entries of `xs` added one by one.
pub open spec fn running_sum<T: Number>(start: T, xs: Seq<T>, n: int) -> T
    decreases n,
{
    if n <= 0 {
        start
    } else {
        running_sum(start, xs, n - 1).plus(xs[n - 1])
    }
}

/// The values on the way of how far the columns of `m` are from orthonormal: `gram` can be
/// `m^T m`, `diff` what it differs by from the unit matrix, `squares` the squares of that.
pub open spec fn deviates_through<N: Outcomes>(
    m: Grid<N>,
    gram: Grid<N>,
    diff: Grid<N>,
    squares: Grid<N>,
) -> bool {
    &&& gram.sized(m.cols, m.cols)
    &&& diff.sized(m.cols, m.cols)
    &&& squares.sized(m.cols, m.cols)
    &&& forall|i: int, j: int|
        0 <= i < m.cols && 0 <= j < m.cols ==> N::dotted(
            m.column(i),
            m.column(j),
            #[trigger] gram.at(i, j),
        )
    &&& forall|i: int, j: int|
        0 <= i < m.cols && 0 <= j < m.cols ==> N::difference(
            gram.at(i, j),
            N::whole(Format::Single, unit_entry(i, j)),
            #[trigger] diff.at(i, j),
        )
    &&& forall|i: int, j: int|
        0 <= i < m.cols && 0 <= j < m.cols ==> N::powered(
            diff.at(i, j),
            2,
            #[trigger] squares.at(i, j),
        )
}

/// `e` can be how far the columns of `m` are from orthonormal: the root of the sum of the squares
/// of the entries of `m^T m - I`, with `read` for the number that an entry stores.
pub open spec fn deviates<N: Outcomes, T: Number>(
    read: spec_fn(N) -> T,
    m: Grid<N>,
    e: T,
) -> bool {
    exists|gram: Grid<N>, diff: Grid<N>, squares: Grid<N>|
        #[trigger] deviates_through(m, gram, diff, squares) && e == running_sum(
            T::nought(),
            squares.cells.map_values(read),
            squares.cells.len() as int,
        ).root()
}

/// The number that a word stores, as a function.
pub open spec fn reading<T: WordNumber>() -> spec_fn(u64) -> T {
    |w: u64| T::of_word(w as u32)
}

/// How far the columns of `m` are from orthonormal.
fn deviation<T: WordScalar>(m: &Mat, unit: &Mat) -> (e: T)
    requires
        m@.wf(),
        m@.inhabited(),
        m.setting().single(),
        unit.setting() == m.setting(),
        unit@.sized(m@.cols, m@.cols),
        forall|i: int, j: int|
            0 <= i < m@.cols && 0 <= j < m@.cols ==> #[trigger] unit@.at(i, j) == word_in(
                Format::Single,
                unit_entry(i, j),
            ),
    ensures
        deviates(reading::<T>(), m@, e),
{
    let mt = transposed(m);
    let gram = matmul(&mt, m);
    let diff = minus(&gram, unit);
    let squares = powers(&diff, 2);
    let words = words_of(&squares);
    let mut acc = T::zero();
    let mut i: usize = 0;
    let ghost xs = squares@.cells.map_values(reading::<T>());
    while i < words.len()
        invariant
            i <= words.len(),
            xs == raised(words@).map_values(reading::<T>()),
            acc == running_sum(T::nought(), xs, i as int),
        decreases words.len() - i,
    {
        acc = acc.add(T::from_word(words[i]));
        i += 1;
    }
    proof {
        let k = m@.cols;
        assert forall|x: int, y: int| 0 <= x < k && 0 <= y < k implies u64::dotted(
            m@.column(x),
            m@.column(y),
            #[trigger] gram@.at(x, y),
        ) by {
            assert(mt@.row(x) =~= m@.column(x));
        }
        assert forall|x: int, y: int| 0 <= x < k && 0 <= y < k implies u64::difference(
            gram@.at(x, y),
            u64::whole(Format::Single, unit_entry(x, y)),
            #[trigger] diff@.at(x, y),
        ) by {
            assert(unit@.at(x, y) == word_in(Format::Single, unit_entry(x, y)));
        }
        assert(deviates_through(m@, gram@, diff@, squares@));
    }
    acc.sqrt()
}

/// The numbers that were found for a dense matrix.
pub struct Factors<T> {
    pub u: Seq<T>,
    pub s: Seq<T>,
    pub v: Seq<T>,
}

/// `f` holds the singular triplets of the `n x m` matrix with the row-major buffer `a`, `k` of
/// them: right vectors in `u`, left vectors in `v`.
pub open spec fn factors_dense<T: Number, D: WideNumber<T>>(
    lanes: bool,
    a: Seq<T>,
    n: int,
    m: int,
    k: int,
    iters: int,
    f: Factors<T>,
) -> bool {
    if n >= m {
        tall_triplets::<T, D>(lanes, columns(a, n, m), n, k, iters, f.u, f.s, f.v)
    } else {
        tall_triplets::<T, D>(lanes, panels(a, m, n), m, k, iters, f.v, f.s, f.u)
    }
}

/// The words of a layer store the singular triplets of the weight `w`.
pub open spec fn holds_dense<T: WordNumber, D: WideNumber<T>>(
    lanes: bool,
    w: Grid<u64>,
    k: int,
    iters: int,
    u: Seq<u64>,
    s: Seq<u64>,
    v: Seq<u64>,
) -> bool {
    exists|f: Factors<T>|
        {
            &&& #[trigger] factors_dense::<T, D>(
                lanes,
                loaded::<T>(lowered(w.cells)),
                w.rows,
                w.cols,
                k,
                iters,
                f,
            )
            &&& u == raised(stored(f.u))
            &&& s == raised(stored(f.s))
            &&& v == raised(stored(f.v))
        }
}

impl SctConfig {
    pub fn new(in_features: usize, out_features: usize, rank: usize) -> (r: Self)
        ensures
            r.in_features == in_features,
            r.out_features == out_features,
            r.rank == rank,
    {
        Self { in_features, out_features, rank }
    }

    /// The layer of this shape, from a draw for each factor.
    pub fn init<T: WordScalar>(&self, u_draw: &Mat, v_draw: &Mat, lanes: bool) -> (r: SctLinear)
        requires
            self.takes_draws(u_draw, v_draw),
        ensures
            r.wf(),
            r.starts::<T>(self, u_draw, v_draw, lanes),
    {
        SctLinear::new::<T>(self, u_draw, v_draw, lanes)
    }

    /// The draws have the shapes of the factors.
    pub open spec fn takes_draws(&self, u_draw: &Mat, v_draw: &Mat) -> bool {
        let k = clamped(self.rank as int, self.in_features as int, self.out_features as int);
        &&& u_draw@.sized(self.in_features as int, k)
        &&& v_draw@.sized(self.out_features as int, k)
        &&& u_draw.setting().single()
        &&& u_draw.setting() == v_draw.setting()
    }
}

impl SctLinear {
    /// The factors and the singular values have the shapes that the layer says, and one setting.
    pub open spec fn shaped(&self) -> bool {
        &&& self.u@.sized(self.in_features as int, self.rank as int)
        &&& self.v@.sized(self.out_features as int, self.rank as int)
        &&& self.s@.len() == self.rank
        &&& self.rank <= self.in_features
        &&& self.rank <= self.out_features
        &&& self.v.setting() == self.u.setting()
        &&& self.s.setting() == self.u.setting()
    }

    /// A layer of single width.
    pub open spec fn wf(&self) -> bool {
        self.shaped() && self.u.setting().single()
    }

    /// The layer that a shape and a draw for each factor begin with.
    pub open spec fn starts<T: WordNumber>(
        &self,
        cfg: &SctConfig,
        u_draw: &Mat,
        v_draw: &Mat,
        lanes: bool,
    ) -> bool {
        &&& self.in_features == cfg.in_features
        &&& self.out_features == cfg.out_features
        &&& self.rank == clamped(
            cfg.rank as int,
            cfg.in_features as int,
            cfg.out_features as int,
        )
        &&& retracts::<T>(lanes, u_draw@, self.u@)
        &&& retracts::<T>(lanes, v_draw@, self.v@)
        &&& self.s@ == Seq::new(self.rank as nat, |i: int| word_in(Format::Single, 1))
        &&& self.u.setting() == u_draw.setting()
    }

    /// The layer of the shape `cfg`: the draws made orthonormal, and ones for the singular values.
    /// The rank is the smallest of that of `cfg` and the numbers of inputs and outputs.
    pub fn new<T: WordScalar>(cfg: &SctConfig, u_draw: &Mat, v_draw: &Mat, lanes: bool) -> (r: Self)
        requires
            cfg.takes_draws(u_draw, v_draw),
        ensures
            r.wf(),
            r.starts::<T>(cfg, u_draw, v_draw, lanes),
    {
        let k = clamped_rank(cfg.rank, cfg.in_features, cfg.out_features);
        Self {
            u: orthogonalize_cpu::<T>(u_draw, lanes),
            s: row_of_ones(k, u_draw),
            v: orthogonalize_cpu::<T>(v_draw, lanes),
            rank: k,
            in_features: cfg.in_features,
            out_features: cfg.out_features,
        }
    }

    /// `y = (x U) * s V^T`: the scaling stands between the two products, where it costs least.
    pub fn forward(&self, x: Mat) -> (y: Mat)
        requires
            self.shaped(),
            self.u.setting().plain(),
            self.rank > 0,
            x@.wf(),
            x@.rows > 0,
            x@.cols == self.in_features,
            x.setting() == self.u.setting(),
        ensures
            passes(x@, self.u@, self.s@, self.v@, y@),
            y@.sized(x@.rows, self.out_features as int),
            y.setting() == x.setting(),
    {
        let h = matmul(&x, &self.u);
        let s = row_as_mat(&self.s);
        let g = times(&h, &s);
        let vt = transposed(&self.v);
        let y = matmul(&g, &vt);
        proof {
            let k = self.rank as int;
            assert forall|b: int, i: int| 0 <= b < x@.rows && 0 <= i < k implies u64::product(
                h@.at(b, i),
                self.s@[i],
                #[trigger] g@.at(b, i),
            ) by {
                assert(s@.spread(b, i) == self.s@[i]);
                assert(h@.spread(b, i) == h@.at(b, i));
            }
            assert forall|b: int, o: int|
                0 <= b < x@.rows && 0 <= o < self.out_features implies u64::dotted(
                g@.row(b),
                self.v@.row(o),
                #[trigger] y@.at(b, o),
            ) by {
                assert(vt@.column(o) =~= self.v@.row(o));
            }
            assert(passes_through(x@, self.u@, self.s@, self.v@, h@, g@, y@));
        }
        y
    }

    /// Makes the columns of both factors orthonormal again.
    pub fn retract<T: WordScalar>(&mut self, lanes: bool)
        requires
            old(self).wf(),
        ensures
            final(self).wf(),
            retracts::<T>(lanes, old(self).u@, final(self).u@),
            retracts::<T>(lanes, old(self).v@, final(self).v@),
            final(self).u.keeps_grad() == old(self).u.keeps_grad(),
            final(self).v.keeps_grad() == old(self).v.keeps_grad(),
            final(self).s == old(self).s,
            final(self).rank == old(self).rank,
            final(self).in_features == old(self).in_features,
            final(self).out_features == old(self).out_features,
    {
        let u = orthogonalize_cpu::<T>(&self.u, lanes);
        let v = orthogonalize_cpu::<T>(&self.v, lanes);
        self.u = u;
        self.v = v;
    }

    /// How far the columns of the factors are from orthonormal: the larger of the two.
    pub fn ortho_error<T: WordScalar>(&self) -> (e: T)
        requires
            self.wf(),
            self.rank > 0,
        ensures
            exists|a: T, b: T|
                {
                    &&& #[trigger] deviates(reading::<T>(), self.u@, a)
                    &&& #[trigger] deviates(reading::<T>(), self.v@, b)
                    &&& e == a.larger(b)
                },
    {
        let k = self.rank;
        let unit = from_words(unit_words(k, k), k, k, &self.u);
        assert forall|i: int, j: int| 0 <= i < k && 0 <= j < k implies #[trigger] unit@.at(i, j)
            == word_in(Format::Single, unit_entry(i, j)) by {
            lemma_cell_bound(k as int, k as int, i, j);
        }
        let a = deviation::<T>(&self.u, &unit);
        let b = deviation::<T>(&self.v, &unit);
        a.max(b)
    }

    /// The layer that stands for a dense weight `[out, in]`, in 15 sweeps.
    pub fn from_dense<T: WordScalar, D: WideScalar<T>>(
        dense_weight: Mat,
        rank: usize,
        lanes: bool,
    ) -> (r: Self)
        requires
            dense_weight.setting().single(),
        ensures
            r.wf(),
            r.in_features == dense_weight@.cols,
            r.out_features == dense_weight@.rows,
            r.rank == clamped(rank as int, dense_weight@.cols, dense_weight@.rows),
            r.u.setting() == dense_weight.setting(),
            holds_dense::<T, D>(
                lanes,
                dense_weight@,
                r.rank as int,
                15,
                r.u@.cells,
                r.s@,
                r.v@.cells,
            ),
    {
        Self::from_dense_with_iters::<T, D>(dense_weight, rank, 15, lanes)
    }

    /// The layer that stands for a dense weight `[out, in]`: the `rank` largest singular triplets,
    /// in at most `svd_iters` sweeps.
    pub fn from_dense_with_iters<T: WordScalar, D: WideScalar<T>>(
        dense_weight: Mat,
        rank: usize,
        svd_iters: usize,
        lanes: bool,
    ) -> (r: Self)
        requires
            dense_weight.setting().single(),
        ensures
            r.wf(),
            r.in_features == dense_weight@.cols,
            r.out_features == dense_weight@.rows,
            r.rank == clamped(rank as int, dense_weight@.cols, dense_weight@.rows),
            r.u.setting() == dense_weight.setting(),
            holds_dense::<T, D>(
                lanes,
                dense_weight@,
                r.rank as int,
                svd_iters as int,
                r.u@.cells,
                r.s@,
                r.v@.cells,
            ),
    {
        let (n, m) = dims(&dense_weight);
        let flat = load_mat::<T>(&dense_weight);
        let (u, s, v, k) = dense_factors::<T, D>(flat.as_slice(), n, m, rank, svd_iters, lanes);
        let u_mat = from_words(store(u.as_slice()), m, k, &dense_weight);
        let s_row = row_from_words(store(s.as_slice()), &dense_weight);
        let v_mat = from_words(store(v.as_slice()), n, k, &dense_weight);
        proof {
            let f = Factors { u: u@, s: s@, v: v@ };
            assert(factors_dense::<T, D>(
                lanes,
                loaded::<T>(lowered(dense_weight@.cells)),
                n as int,
                m as int,
                k as int,
                svd_iters as int,
                f,
            ));
        }
        Self {
            u: u_mat,
            s: s_row,
            v: v_mat,
            rank: k,
            in_features: m,
            out_features: n,
        }
    }

    /// The number of parameters of the layer.
    pub fn param_count(&self) -> (r: usize)
        requires
            self.rank * (self.in_features + self.out_features + 1) <= usize::MAX,
            self.in_features + self.out_features + 1 <= usize::MAX,
        ensures
            r == self.rank * (self.in_features + self.out_features + 1),
    {
        self.rank * (self.in_features + self.out_features + 1)
    }

    /// The number of parameters of the dense layer that this one stands for.
    pub fn dense_params(&self) -> (r: usize)
        requires
            self.in_features * self.out_features <= usize::MAX,
        ensures
            r == self.in_features * self.out_features,
    {
        self.in_features * self.out_features
    }

    /// How many times fewer parameters the layer has than the dense one.
    pub fn compression_ratio<D: Scalar>(&self) -> (r: D)
        requires
            self.rank * (self.in_features + self.out_features + 1) <= usize::MAX,
            self.in_features + self.out_features + 1 <= usize::MAX,
            self.in_features * self.out_features <= usize::MAX,
        ensures
            r == D::counted((self.in_features * self.out_features) as usize).over(
                D::counted(
                    (self.rank * (self.in_features + self.out_features + 1)) as usize,
                ),
            ),
    {
        D::from_count(self.dense_params()).div(D::from_count(self.param_count()))
    }
}

/// The smallest of a rank and two side lengths.
pub fn clamped_rank(rank: usize, inputs: usize, outputs: usize) -> (k: usize)
    ensures
        k == clamped(rank as int, inputs as int, outputs as int),
{
    let k: usize = if rank <= inputs {
        rank
    } else {
        inputs
    };
    if k <= outputs {
        k
    } else {
        outputs
    }
}

} // verus!
