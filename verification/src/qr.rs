//! Householder QR with matrix operations, for any device.
//!
//! The reflectors are kept in the R pass and Q is built back to front, so that the full square Q
//! is never formed.

#[allow(unused_imports)]
use crate::grid::lemma_cell_bound;
#[allow(unused_imports)]
use crate::house::lesser;
#[allow(unused_imports)]
use crate::outcome::Outcomes;
use crate::tensor::{
    cast_like, column_sums, copied, dims, from_words, is_close, mask_fill, matmul, minus, opposite,
    over, powers, roots, scaled, shifted, signs, slice, slice_assign, times, transposed, zeros_like,
    Mat,
};
#[allow(unused_imports)]
use crate::tensor::{unit_entry, word_in, Format, Grid};
use crate::words::unit_words;
use vstd::prelude::*;

pub use crate::house::qr_cpu;

verus! {

/// The values on the way of one reflection of a block of a matrix.
pub struct Reflection<N> {
    /// `w^T block`.
    pub across: Seq<N>,
    /// `w (w^T block)`.
    pub outer: Grid<N>,
    /// `tau w (w^T block)`.
    pub update: Grid<N>,
}

/// `after` can be `before` with its block from row `i` and column `j` on reflected:
/// `block - tau w (w^T block)`.
pub open spec fn reflects<N: Outcomes>(
    before: Grid<N>,
    i: int,
    j: int,
    w: Seq<N>,
    tau: N,
    b: Reflection<N>,
    after: Grid<N>,
) -> bool {
    let rows = before.rows - i;
    let cols = before.cols - j;
    &&& after.sized(before.rows, before.cols)
    &&& b.across.len() == cols
    &&& b.outer.sized(rows, cols)
    &&& b.update.sized(rows, cols)
    &&& forall|c: int|
        0 <= c < cols ==> N::dotted(w, block_column(before, i, j, c), #[trigger] b.across[c])
    &&& forall|r: int, c: int|
        0 <= r < rows && 0 <= c < cols ==> N::dotted(
            seq![w[r]],
            seq![b.across[c]],
            #[trigger] b.outer.at(r, c),
        )
    &&& forall|r: int, c: int|
        0 <= r < rows && 0 <= c < cols ==> N::product(
            b.outer.at(r, c),
            tau,
            #[trigger] b.update.at(r, c),
        )
    &&& forall|r: int, c: int|
        i <= r < before.rows && j <= c < before.cols ==> N::difference(
            before.at(r, c),
            b.update.at(r - i, c - j),
            #[trigger] after.at(r, c),
        )
    &&& forall|r: int, c: int|
        0 <= r < before.rows && 0 <= c < before.cols && (r < i || c < j) ==> #[trigger] after.at(
            r,
            c,
        ) == before.at(r, c)
}

/// Column `c` of the block of `m` from row `i` and column `j` on.
pub open spec fn block_column<N>(m: Grid<N>, i: int, j: int, c: int) -> Seq<N> {
    Seq::new((m.rows - i) as nat, |r: int| m.at(i + r, j + c))
}

/// The values on the way of one step of the R pass.
pub struct QrStep<N> {
    pub squares: Seq<N>,
    pub norm2: N,
    pub norm: N,
    pub sign0: N,
    pub sign1: N,
    /// The sign is that of 0.
    pub no_sign: bool,
    pub beta: N,
    pub u0: N,
    /// There is nothing to reflect.
    pub no_norm: bool,
    pub ratio: N,
    pub turned: N,
    pub factor: N,
    pub lead0: N,
    pub lead: N,
    pub quotients: Seq<N>,
    pub reflection: Reflection<N>,
}

impl<N: Outcomes> QrStep<N> {
    /// The sign that the diagonal entry gets.
    pub open spec fn sign(self, f: Format) -> N {
        if self.no_sign {
            N::whole(f, -1)
        } else {
            self.sign1
        }
    }

    /// The factor of the reflection.
    pub open spec fn tau(self, f: Format) -> N {
        if self.no_norm {
            N::whole(f, 0)
        } else {
            self.factor
        }
    }

    /// The vector of the reflection.
    pub open spec fn w(self, f: Format) -> Seq<N> {
        Seq::new(
            self.quotients.len(),
            |r: int|
                if self.no_norm {
                    N::whole(f, 0)
                } else if r == 0 {
                    self.lead
                } else {
                    self.quotients[r]
                },
        )
    }
}

/// `t` can be the values of step `i` on the matrix `before`, and `after` the matrix after it.
pub open spec fn steps_to<N: Outcomes>(
    f: Format,
    before: Grid<N>,
    i: int,
    t: QrStep<N>,
    after: Grid<N>,
) -> bool {
    let v = block_column(before, i, i, 0);
    let rows = before.rows - i;
    &&& t.squares.len() == rows
    &&& t.quotients.len() == rows
    &&& forall|r: int| 0 <= r < rows ==> N::powered(v[r], 2, #[trigger] t.squares[r])
    &&& N::totalled(t.squares, t.norm2)
    &&& N::rooted(t.norm2, t.norm)
    &&& N::signed(v[0], t.sign0)
    &&& N::opposite(t.sign0, t.sign1)
    &&& N::near(t.sign1, N::whole(f, 0), t.no_sign)
    &&& N::product(t.norm, t.sign(f), t.beta)
    &&& N::difference(v[0], t.beta, t.u0)
    &&& N::near(t.norm, N::whole(f, 0), t.no_norm)
    &&& N::quotient(t.u0, t.norm, t.ratio)
    &&& N::product(t.ratio, t.sign(f), t.turned)
    &&& N::opposite(t.turned, t.factor)
    &&& N::scaled(v[0], 0, t.lead0)
    &&& N::shifted(t.lead0, 1, t.lead)
    &&& forall|r: int| 0 <= r < rows ==> N::quotient(v[r], t.u0, #[trigger] t.quotients[r])
    &&& reflects(before, i, i, t.w(f), t.tau(f), t.reflection, after)
}

/// A matrix of one column.
pub open spec fn is_column<N>(m: Grid<N>, x: Seq<N>) -> bool {
    &&& m.sized(x.len() as int, 1)
    &&& forall|r: int| 0 <= r < x.len() ==> #[trigger] m.at(r, 0) == x[r]
}

/// A matrix of one entry.
pub open spec fn is_entry<N>(m: Grid<N>, x: N) -> bool {
    m.sized(1, 1) && m.at(0, 0) == x
}

/// Reflects the block of `m` from row `i` and column `j` on: `block - tau w (w^T block)`.
fn reflect(m: &Mat, i: usize, j: usize, w: &Mat, tau: &Mat) -> (r: Mat)
    requires
        m@.wf(),
        m@.rows <= usize::MAX,
        m@.cols <= usize::MAX,
        i < m@.rows,
        j < m@.cols,
        w@.sized(m@.rows - i, 1),
        tau@.sized(1, 1),
        m.setting().plain(),
        w.setting() == m.setting(),
        tau.setting() == m.setting(),
    ensures
        r.setting() == m.setting(),
        exists|b: Reflection<u64>|
            reflects(
                m@,
                i as int,
                j as int,
                w@.column(0),
                tau@.at(0, 0),
                b,
                r@,
            ),
{
    let (rows, cols) = dims(m);
    let block = slice(m, i, rows, j, cols);
    let wt = transposed(w);
    let across = matmul(&wt, &block);
    let outer = matmul(w, &across);
    let update = times(&outer, tau);
    let next = minus(&block, &update);
    let r = slice_assign(m, i, rows, j, cols, &next);
    proof {
        let b = Reflection { across: across@.row(0), outer: outer@, update: update@ };
        let (gi, gj) = (i as int, j as int);
        let wc = w@.column(0);
        assert(wt@.row(0) =~= wc);
        assert forall|c: int| 0 <= c < cols - j implies u64::dotted(
            wc,
            block_column(m@, gi, gj, c),
            #[trigger] b.across[c],
        ) by {
            assert(block@.column(c) =~= block_column(m@, gi, gj, c));
            assert(b.across[c] == across@.at(0, c));
        }
        assert forall|x: int, c: int| 0 <= x < rows - i && 0 <= c < cols - j implies u64::dotted(
            seq![wc[x]],
            seq![b.across[c]],
            #[trigger] b.outer.at(x, c),
        ) by {
            assert(w@.row(x) =~= seq![wc[x]]);
            assert(across@.column(c) =~= seq![b.across[c]]);
        }
        assert forall|x: int, c: int| gi <= x < rows && gj <= c < cols implies u64::difference(
            m@.at(x, c),
            b.update.at(x - gi, c - gj),
            #[trigger] r@.at(x, c),
        ) by {
            assert(r@.at(x, c) == next@.at(x - gi, c - gj));
            assert(block@.at(x - gi, c - gj) == m@.at(x, c));
        }
        assert(reflects(m@, gi, gj, wc, tau@.at(0, 0), b, r@));
    }
    r
}

/// `t` can be the values of step `i`, with the vector `w`, the factor `tau` and the matrix `after`.
pub open spec fn step_gives<N: Outcomes>(
    f: Format,
    before: Grid<N>,
    i: int,
    t: QrStep<N>,
    w: Grid<N>,
    tau: Grid<N>,
    after: Grid<N>,
) -> bool {
    steps_to(f, before, i, t, after) && is_column(w, t.w(f)) && is_entry(tau, t.tau(f))
}

/// Step `i` of the R pass: the vector and the factor of the reflection, and the matrix after it.
fn step(m: &Mat, i: usize) -> (res: (Mat, Mat, Mat))
    requires
        m@.wf(),
        m@.rows <= usize::MAX,
        m@.cols <= usize::MAX,
        i < m@.rows,
        i < m@.cols,
        m.setting().plain(),
    ensures
        res.0.setting() == m.setting(),
        res.1.setting() == m.setting(),
        res.2.setting() == m.setting(),
        exists|t: QrStep<u64>|
            step_gives(m.setting().format, m@, i as int, t, res.0@, res.1@, res.2@),
{
    let ghost f = m.setting().format;
    let (rows, _cols) = dims(m);
    let v = slice(m, i, rows, i, i + 1);
    let v0 = slice(&v, 0, 1, 0, 1);
    let zeros = zeros_like(&v0);
    let squares = powers(&v, 2);
    let norm2 = column_sums(&squares);
    let norm = roots(&norm2);
    // The sign opposite to that of the diagonal entry, and -1 where that is 0.
    let sign0 = signs(&v0);
    let sign1 = opposite(&sign0);
    let no_sign = is_close(&sign1, &zeros);
    let sign = mask_fill(&sign1, &no_sign, -1);
    let beta = times(&norm, &sign);
    let u0 = minus(&v0, &beta);
    // Where the norm is 0 there is nothing to reflect.
    let no_norm = is_close(&norm, &zeros);
    let ratio = over(&u0, &norm);
    let turned = times(&ratio, &sign);
    let factor = opposite(&turned);
    let tau = mask_fill(&factor, &no_norm, 0);
    let lead0 = scaled(&v0, 0);
    let lead = shifted(&lead0, 1);
    let quotients = over(&v, &u0);
    let headed = slice_assign(&quotients, 0, 1, 0, 1, &lead);
    let w = mask_fill(&headed, &no_norm, 0);
    let next = reflect(m, i, i, &w, &tau);
    proof {
        let gi = i as int;
        let b = choose|b: Reflection<u64>|
            reflects(m@, gi, gi, w@.column(0), tau@.at(0, 0), b, next@);
        let t = QrStep {
            squares: squares@.column(0),
            norm2: norm2@.at(0, 0),
            norm: norm@.at(0, 0),
            sign0: sign0@.at(0, 0),
            sign1: sign1@.at(0, 0),
            no_sign: no_sign@.at(0, 0),
            beta: beta@.at(0, 0),
            u0: u0@.at(0, 0),
            no_norm: no_norm@.at(0, 0),
            ratio: ratio@.at(0, 0),
            turned: turned@.at(0, 0),
            factor: factor@.at(0, 0),
            lead0: lead0@.at(0, 0),
            lead: lead@.at(0, 0),
            quotients: quotients@.column(0),
            reflection: b,
        };
        let gv = block_column(m@, gi, gi, 0);
        assert forall|r: int| 0 <= r < rows - i implies #[trigger] v@.at(r, 0) == gv[r] by {}
        assert(v0@.at(0, 0) == gv[0]);
        assert(sign@.at(0, 0) == t.sign(f));
        assert(tau@.at(0, 0) == t.tau(f));
        assert forall|r: int| 0 <= r < rows - i implies #[trigger] w@.at(r, 0) == t.w(f)[r] by {
            assert(headed@.at(r, 0) == if r == 0 {
                t.lead
            } else {
                t.quotients[r]
            });
        }
        assert(w@.column(0) =~= t.w(f));
        assert forall|r: int| 0 <= r < rows - i implies u64::powered(
            gv[r],
            2,
            #[trigger] t.squares[r],
        ) by {
            assert(v@.at(r, 0) == gv[r]);
            assert(t.squares[r] == squares@.at(r, 0));
        }
        assert forall|r: int| 0 <= r < rows - i implies u64::quotient(
            gv[r],
            t.u0,
            #[trigger] t.quotients[r],
        ) by {
            assert(v@.at(r, 0) == gv[r]);
            assert(t.quotients[r] == quotients@.at(r, 0));
        }
        assert(steps_to(f, m@, gi, t, next@));
        assert(is_column(w@, t.w(f)));
        assert(step_gives(f, m@, gi, t, w@, tau@, next@));
    }
    let ghost given = (w@, tau@, next@);
    let res = (w, tau, next);
    assert((res.0@, res.1@, res.2@) == given);
    res
}

/// The values on the way of a factorisation.
pub struct QrTrace<N> {
    /// The steps of the R pass.
    pub steps: Seq<QrStep<N>>,
    /// The matrix before each step, and after the last.
    pub rs: Seq<Grid<N>>,
    /// The reflections of the Q pass.
    pub backs: Seq<Reflection<N>>,
    /// Q from each reflection of the Q pass on, and before all of them.
    pub qs: Seq<Grid<N>>,
}

/// The first `k` columns of the unit matrix of `rows` rows.
pub open spec fn is_unit<N: Outcomes>(f: Format, m: Grid<N>, rows: int, k: int) -> bool {
    &&& m.sized(rows, k)
    &&& forall|i: int, j: int|
        0 <= i < rows && 0 <= j < k ==> #[trigger] m.at(i, j) == N::whole(f, unit_entry(i, j))
}

/// The R pass over `a` can have gone through the first `done` steps of `tr`.
pub open spec fn forward_pass<N: Outcomes>(
    f: Format,
    a: Grid<N>,
    tr: QrTrace<N>,
    done: int,
) -> bool {
    &&& tr.steps.len() == done
    &&& tr.rs.len() == done + 1
    &&& tr.rs[0] == a
    &&& forall|i: int|
        0 <= i < done ==> steps_to(f, tr.rs[i], i, #[trigger] tr.steps[i], tr.rs[i + 1])
}

/// The Q pass can have gone through the last `k - from` reflections of `tr`.
pub open spec fn backward_pass<N: Outcomes>(
    f: Format,
    rows: int,
    k: int,
    tr: QrTrace<N>,
    from: int,
) -> bool {
    &&& tr.backs.len() == k
    &&& tr.qs.len() == k + 1
    &&& is_unit(f, tr.qs[k], rows, k)
    &&& forall|i: int|
        from <= i < k ==> reflects(
            tr.qs[i + 1],
            i,
            0,
            tr.steps[i].w(f),
            tr.steps[i].tau(f),
            #[trigger] tr.backs[i],
            tr.qs[i],
        )
}

/// `tr` can be the values of a factorisation of `a`.
pub open spec fn traces<N: Outcomes>(f: Format, a: Grid<N>, tr: QrTrace<N>) -> bool {
    let k = lesser(a.rows, a.cols);
    forward_pass(f, a, tr, k) && backward_pass(f, a.rows, k, tr, 0)
}

/// `r` is the top of `m` where the factorisation is reduced and `m` is tall, all of `m` elsewhere.
pub open spec fn is_top<N>(m: Grid<N>, reduced: bool, r: Grid<N>) -> bool {
    if reduced && m.rows > m.cols {
        &&& r.sized(m.cols, m.cols)
        &&& forall|i: int, j: int|
            0 <= i < m.cols && 0 <= j < m.cols ==> #[trigger] r.at(i, j) == m.at(i, j)
    } else {
        r == m
    }
}

/// `q` and `r` can be the factors of `a`.
pub open spec fn factors<N: Outcomes>(
    f: Format,
    a: Grid<N>,
    reduced: bool,
    q: Grid<N>,
    r: Grid<N>,
) -> bool {
    exists|tr: QrTrace<N>|
        {
            &&& #[trigger] traces(f, a, tr)
            &&& q == tr.qs[0]
            &&& is_top(tr.rs[lesser(a.rows, a.cols)], reduced, r)
        }
}

/// QR decomposition of a matrix `[n_rows, n_cols]`.
///
/// Returns `(Q, R)` with `A = Q R`. `Q` has `min(n_rows, n_cols)` columns; `R` is
/// `[n_cols, n_cols]` when `reduced && n_rows > n_cols`, otherwise `[n_rows, n_cols]`. Both are in
/// the format of the matrix.
pub fn qr(tensor: Mat, reduced: bool) -> (res: (Mat, Mat))
    requires
        tensor@.rows > 0,
        tensor.setting().plain(),
    ensures
        factors(tensor.setting().format, tensor@, reduced, res.0@, res.1@),
        res.0@.sized(tensor@.rows, lesser(tensor@.rows, tensor@.cols)),
        res.1@.sized(
            if reduced && tensor@.rows > tensor@.cols {
                tensor@.cols
            } else {
                tensor@.rows
            },
            tensor@.cols,
        ),
        res.0.setting() == tensor.setting(),
        res.1.setting() == tensor.setting(),
{
    let (n_rows, n_cols) = dims(&tensor);
    let max_iters: usize = if n_rows <= n_cols {
        n_rows
    } else {
        n_cols
    };
    let mut r = copied(&tensor);
    let mut reflectors: Vec<(Mat, Mat)> = Vec::with_capacity(max_iters);
    let ghost a = tensor@;
    let ghost set = tensor.setting();
    let ghost f = set.format;
    let ghost mut tr = QrTrace::<u64> {
        steps: Seq::empty(),
        rs: seq![a],
        backs: Seq::empty(),
        qs: Seq::empty(),
    };
    let mut i: usize = 0;
    while i < max_iters
        invariant
            i <= max_iters,
            max_iters <= n_rows,
            max_iters <= n_cols,
            a.sized(n_rows as int, n_cols as int),
            set.plain(),
            f == set.format,
            r.setting() == set,
            r@.sized(n_rows as int, n_cols as int),
            forward_pass(f, a, tr, i as int),
            tr.rs[i as int] == r@,
            reflectors.len() == i,
            forall|x: int|
                0 <= x < i ==> {
                    &&& is_column((#[trigger] reflectors@[x]).0@, tr.steps[x].w(f))
                    &&& is_entry(reflectors@[x].1@, tr.steps[x].tau(f))
                    &&& reflectors@[x].0.setting() == set
                    &&& reflectors@[x].1.setting() == set
                    &&& tr.steps[x].w(f).len() == n_rows - x
                },
        decreases max_iters - i,
    {
        let (w, tau, next) = step(&r, i);
        proof {
            let t = choose|t: QrStep<u64>|
                step_gives(f, r@, i as int, t, w@, tau@, next@);
            let before = tr;
            tr.steps = before.steps.push(t);
            tr.rs = before.rs.push(next@);
            assert forall|x: int| 0 <= x < i + 1 implies steps_to(
                f,
                tr.rs[x],
                x,
                #[trigger] tr.steps[x],
                tr.rs[x + 1],
            ) by {
                if x < i {
                    assert(before.steps[x] == tr.steps[x]);
                }
            }
        }
        r = next;
        reflectors.push((w, tau));
        i += 1;
    }
    // Q = H_1 .. H_k I_k, back to front; H_i touches the rows from i on only.
    let unit = from_words(unit_words(n_rows, max_iters), n_rows, max_iters, &tensor);
    let mut q = cast_like(&unit, &tensor);
    let ghost k = max_iters as int;
    proof {
        assert(is_unit(f, q@, n_rows as int, k)) by {
            assert forall|x: int, y: int| 0 <= x < n_rows && 0 <= y < k implies #[trigger] q@.at(
                x,
                y,
            ) == u64::whole(f, unit_entry(x, y)) by {
                lemma_cell_bound(n_rows as int, k, x, y);
                assert(unit@.at(x, y) == word_in(Format::Single, unit_entry(x, y)));
            }
        }
        let blank = Reflection { across: Seq::empty(), outer: q@, update: q@ };
        tr.backs = Seq::new(k as nat, |x: int| blank);
        tr.qs = Seq::new((k + 1) as nat, |x: int| q@);
    }
    let mut from: usize = max_iters;
    while from > 0
        invariant
            from <= max_iters,
            max_iters <= n_rows,
            max_iters <= n_cols,
            k == max_iters,
            a.sized(n_rows as int, n_cols as int),
            set.plain(),
            f == set.format,
            q.setting() == set,
            q@.sized(n_rows as int, k),
            reflectors.len() == k,
            forall|x: int|
                0 <= x < k ==> {
                    &&& is_column((#[trigger] reflectors@[x]).0@, tr.steps[x].w(f))
                    &&& is_entry(reflectors@[x].1@, tr.steps[x].tau(f))
                    &&& reflectors@[x].0.setting() == set
                    &&& reflectors@[x].1.setting() == set
                    &&& tr.steps[x].w(f).len() == n_rows - x
                },
            forward_pass(f, a, tr, k),
            tr.rs[k] == r@,
            backward_pass(f, n_rows as int, k, tr, from as int),
            tr.qs[from as int] == q@,
        decreases from,
    {
        from -= 1;
        assert(is_column(reflectors@[from as int].0@, tr.steps[from as int].w(f)));
        let next = reflect(&q, from, 0, &reflectors[from].0, &reflectors[from].1);
        proof {
            let x = from as int;
            let w = reflectors@[x].0@;
            assert(w.column(0) =~= tr.steps[x].w(f));
            let b = choose|b: Reflection<u64>|
                reflects(q@, x, 0, w.column(0), reflectors@[x].1@.at(0, 0), b, next@);
            let before = tr;
            tr.backs = before.backs.update(x, b);
            tr.qs = before.qs.update(x, next@);
            assert forall|y: int| x <= y < k implies reflects(
                tr.qs[y + 1],
                y,
                0,
                tr.steps[y].w(f),
                tr.steps[y].tau(f),
                #[trigger] tr.backs[y],
                tr.qs[y],
            ) by {
                if y > x {
                    assert(before.backs[y] == tr.backs[y]);
                }
            }
        }
        q = next;
    }
    assert(traces(f, a, tr));
    if reduced && n_cols == 0 {
        let none = from_words(Vec::new(), 0, 0, &tensor);
        let top = cast_like(&none, &tensor);
        assert(is_top(tr.rs[k], reduced, top@));
        return (q, top);
    }
    if reduced && n_rows > n_cols {
        let top = slice(&r, 0, n_cols, 0, n_cols);
        assert(is_top(tr.rs[k], reduced, top@));
        return (q, top);
    }
    assert(is_top(tr.rs[k], reduced, r@));
    (q, r)
}

} // verus!
