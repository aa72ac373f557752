//! What determines the factors of a matrix in exact arithmetic.
//!
//! A matrix of full column rank is the product of an orthonormal and an upper-triangular factor
//! with a positive diagonal in one way only, and these are the factors that
//! [`qr_cpu`](crate::house::qr_cpu) returns.

use crate::algebra::{
    lemma_assoc, lemma_cancel, lemma_comm, lemma_negate, lemma_no_divisors, lemma_not_negative,
    lemma_one, lemma_over_times, lemma_positive, lemma_regroup, lemma_spread_sub, lemma_zero,
};
use crate::chol_laws::lemma_root_unique;
use crate::exact::{
    delta, inner, lemma_isometry, lemma_root, lemma_running_dot, lemma_sum_ext, lemma_sum_scale,
    lemma_sum_short, lemma_sum_squares, lemma_sum_zero, sum,
};
use crate::house::{
    axis, cleared, flips, house, house_step, house_taus, lemma_house_shape, lesser, qr_q, qr_r,
    reflected_below, reflector, tall, unwound,
};
use crate::lanes::running_dot;
use crate::mirror::{lemma_reflected_is_mirror, lemma_reflector, mirror, padded};
use crate::qr_laws::{law_q_orthonormal, law_qr_product, law_r_triangular};
use crate::scalar::{roots_exist, Number};
use vstd::prelude::*;

verus! {

/// The columns `cols`, of `m` entries each, are `Q R` with orthonormal columns `q` and the
/// upper-triangular `r`, whose diagonal is not negative.
pub open spec fn factored(
    cols: Seq<Seq<real>>,
    m: int,
    q: Seq<Seq<real>>,
    r: spec_fn(int, int) -> real,
) -> bool {
    let n = cols.len() as int;
    &&& q.len() == n
    &&& tall(q, m)
    &&& forall|c: int, d: int|
        0 <= c < n && 0 <= d < n ==> inner(#[trigger] q[c], #[trigger] q[d]) == delta(c, d)
    &&& forall|c: int, j: int| 0 <= j < c < n ==> #[trigger] r(c, j) == 0real
    &&& forall|c: int| 0 <= c < n ==> #[trigger] r(c, c) >= 0real
    &&& forall|j: int, x: int|
        0 <= j < n && 0 <= x < m ==> #[trigger] cols[j][x] == sum(n, |c: int| q[c][x] * r(c, j))
}

/// The factors that are computed are such factors.
pub proof fn lemma_factored(lanes: bool, cols: Seq<Seq<real>>, m: int)
    requires
        roots_exist(),
        tall(cols, m),
        cols.len() <= m,
    ensures
        factored(cols, m, qr_q(lanes, cols, m), |c: int, j: int| qr_r(lanes, cols, m, c, j)),
{
    let n = cols.len() as int;
    let q = qr_q(lanes, cols, m);
    let r = |c: int, j: int| qr_r(lanes, cols, m, c, j);
    assert forall|c: int| 0 <= c < n implies (#[trigger] q[c]).len() == m by {
        law_q_orthonormal(lanes, cols, m, c, c);
    }
    assert forall|c: int, d: int| 0 <= c < n && 0 <= d < n implies inner(
        #[trigger] q[c],
        #[trigger] q[d],
    ) == delta(c, d) by {
        law_q_orthonormal(lanes, cols, m, c, d);
    }
    assert forall|c: int, j: int| 0 <= j < c < n implies #[trigger] r(c, j) == 0real by {
        law_r_triangular(lanes, cols, m, c, j);
    }
    assert forall|c: int| 0 <= c < n implies #[trigger] r(c, c) >= 0real by {
        law_r_triangular(lanes, cols, m, c, c);
    }
    assert forall|j: int, x: int| 0 <= j < n && 0 <= x < m implies #[trigger] cols[j][x] == sum(
        n,
        |c: int| q[c][x] * r(c, j),
    ) by {
        law_qr_product(lanes, cols, m, x, j);
        lemma_sum_ext(
            n,
            |c: int| q[c][x] * r(c, j),
            |c: int| qr_q(lanes, cols, m)[c][x] * qr_r(lanes, cols, m, c, j),
        );
    }
}

/// The inner products of the columns, by the triangular factor.
pub proof fn lemma_gram(
    cols: Seq<Seq<real>>,
    m: int,
    q: Seq<Seq<real>>,
    r: spec_fn(int, int) -> real,
    l: int,
    i: int,
)
    requires
        tall(cols, m),
        factored(cols, m, q, r),
        0 <= l <= i < cols.len(),
    ensures
        inner(cols[l], cols[i]) == sum(l + 1, |c: int| r(c, l) * r(c, i)),
{
    let n = cols.len() as int;
    let f = |c: int| r(c, l);
    let g = |c: int| r(c, i);
    let (x, y) = (cols[l], cols[i]);
    assert forall|k: int| 0 <= k < m implies #[trigger] x[k] == sum(n, |c: int| q[c][k] * f(c)) by {
        assert(cols[l][k] == sum(n, |c: int| q[c][k] * r(c, l)));
        lemma_sum_ext(n, |c: int| q[c][k] * f(c), |c: int| q[c][k] * r(c, l));
    }
    assert forall|k: int| 0 <= k < m implies #[trigger] y[k] == sum(n, |c: int| q[c][k] * g(c)) by {
        assert(cols[i][k] == sum(n, |c: int| q[c][k] * r(c, i)));
        lemma_sum_ext(n, |c: int| q[c][k] * g(c), |c: int| q[c][k] * r(c, i));
    }
    lemma_isometry(q, f, x, g, y);
    let fg = |c: int| f(c) * g(c);
    assert forall|c: int| l + 1 <= c < n implies #[trigger] fg(c) == 0real by {
        assert(r(c, l) == 0real);
        lemma_zero(g(c));
    }
    lemma_sum_short(n, l + 1, fg);
    lemma_sum_ext(l + 1, fg, |c: int| r(c, l) * r(c, i));
}

/// The first `rows` rows of two triangular factors agree.
proof fn lemma_rows_agree(
    cols: Seq<Seq<real>>,
    m: int,
    q: Seq<Seq<real>>,
    r: spec_fn(int, int) -> real,
    q2: Seq<Seq<real>>,
    r2: spec_fn(int, int) -> real,
    rows: int,
)
    requires
        tall(cols, m),
        factored(cols, m, q, r),
        factored(cols, m, q2, r2),
        forall|c: int| 0 <= c < cols.len() ==> #[trigger] r(c, c) > 0real,
        0 <= rows <= cols.len(),
    ensures
        forall|l: int, i: int|
            0 <= l < rows && l <= i < cols.len() ==> #[trigger] r2(l, i) == r(l, i),
    decreases rows,
{
    let n = cols.len() as int;
    if rows > 0 {
        let l = rows - 1;
        lemma_rows_agree(cols, m, q, r, q2, r2, l);
        let (d, e) = (r(l, l), r2(l, l));
        assert forall|i: int| l <= i < n implies e * #[trigger] r2(l, i) == d * r(l, i) by {
            lemma_gram(cols, m, q, r, l, i);
            lemma_gram(cols, m, q2, r2, l, i);
            let f = |c: int| r(c, l) * r(c, i);
            let g = |c: int| r2(c, l) * r2(c, i);
            assert(sum(l + 1, f) == sum(l, f) + f(l));
            assert(sum(l + 1, g) == sum(l, g) + g(l));
            assert forall|c: int| 0 <= c < l implies #[trigger] f(c) == g(c) by {
                assert(r2(c, l) == r(c, l));
                assert(r2(c, i) == r(c, i));
            }
            lemma_sum_ext(l, f, g);
        }
        assert(e * r2(l, l) == d * r(l, l));
        lemma_root_unique(e, d);
        assert forall|i: int| l <= i < n implies #[trigger] r2(l, i) == r(l, i) by {
            lemma_cancel(d, r2(l, i), r(l, i));
        }
    }
}

/// Entry `x` of column `j` of two orthonormal factors agrees.
proof fn lemma_columns_agree(
    cols: Seq<Seq<real>>,
    m: int,
    q: Seq<Seq<real>>,
    r: spec_fn(int, int) -> real,
    q2: Seq<Seq<real>>,
    r2: spec_fn(int, int) -> real,
    j: int,
    x: int,
)
    requires
        tall(cols, m),
        factored(cols, m, q, r),
        factored(cols, m, q2, r2),
        forall|c: int| 0 <= c < cols.len() ==> #[trigger] r(c, c) > 0real,
        0 <= j < cols.len(),
        0 <= x < m,
    ensures
        q2[j][x] == q[j][x],
    decreases j,
{
    let n = cols.len() as int;
    lemma_rows_agree(cols, m, q, r, q2, r2, n);
    let f = |c: int| q[c][x] * r(c, j);
    let g = |c: int| q2[c][x] * r2(c, j);
    assert(cols[j][x] == sum(n, f));
    assert(cols[j][x] == sum(n, g));
    assert forall|c: int| j + 1 <= c < n implies #[trigger] f(c) == 0real by {
        assert(r(c, j) == 0real);
        lemma_zero(q[c][x]);
    }
    assert forall|c: int| j + 1 <= c < n implies #[trigger] g(c) == 0real by {
        assert(r2(c, j) == 0real);
        lemma_zero(q2[c][x]);
    }
    lemma_sum_short(n, j + 1, f);
    lemma_sum_short(n, j + 1, g);
    assert forall|c: int| 0 <= c < j implies #[trigger] f(c) == g(c) by {
        lemma_columns_agree(cols, m, q, r, q2, r2, c, x);
        assert(r2(c, j) == r(c, j));
    }
    lemma_sum_ext(j, f, g);
    assert(sum(j + 1, f) == sum(j, f) + f(j));
    assert(sum(j + 1, g) == sum(j, g) + g(j));
    assert(r2(j, j) == r(j, j));
    let d = r(j, j);
    lemma_comm(q[j][x], d);
    lemma_comm(q2[j][x], d);
    lemma_cancel(d, q2[j][x], q[j][x]);
}

/// The factors are unique: where a matrix is `Q R` with orthonormal `q` and upper-triangular `r`
/// with a positive diagonal, these are the factors that are computed.
pub proof fn law_qr_unique(
    lanes: bool,
    cols: Seq<Seq<real>>,
    m: int,
    q: Seq<Seq<real>>,
    r: spec_fn(int, int) -> real,
)
    requires
        roots_exist(),
        tall(cols, m),
        cols.len() <= m,
        factored(cols, m, q, r),
        forall|c: int| 0 <= c < cols.len() ==> #[trigger] r(c, c) > 0real,
    ensures
        qr_q(lanes, cols, m) == q,
        forall|l: int, i: int|
            0 <= l < cols.len() && 0 <= i < cols.len() ==> #[trigger] qr_r(lanes, cols, m, l, i)
                == r(l, i),
{
    let n = cols.len() as int;
    let q2 = qr_q(lanes, cols, m);
    let r2 = |c: int, j: int| qr_r(lanes, cols, m, c, j);
    lemma_factored(lanes, cols, m);
    lemma_rows_agree(cols, m, q, r, q2, r2, n);
    assert forall|l: int, i: int| 0 <= l < n && 0 <= i < n implies #[trigger] qr_r(
        lanes,
        cols,
        m,
        l,
        i,
    ) == r(l, i) by {
        if l <= i {
            assert(r2(l, i) == r(l, i));
        } else {
            assert(r(l, i) == 0real);
            law_r_triangular(lanes, cols, m, l, i);
        }
    }
    assert forall|j: int| 0 <= j < n implies #[trigger] q2[j] == q[j] by {
        assert forall|x: int| 0 <= x < m implies q2[j][x] == q[j][x] by {
            lemma_columns_agree(cols, m, q, r, q2, r2, j, x);
        }
        assert(q2[j] =~= q[j]);
    }
    assert(q2 =~= q);
}

/// The columns times `a`.
pub open spec fn stretched(cols: Seq<Seq<real>>, a: real) -> Seq<Seq<real>> {
    Seq::new(cols.len(), |j: int| longer(cols[j], a))
}

/// A vector times `a`.
pub open spec fn longer(x: Seq<real>, a: real) -> Seq<real> {
    x.map_values(|e: real| a * e)
}

/// A common factor of a quotient.
proof fn lemma_common(a: real, x: real, y: real)
    requires
        a != 0real,
        y != 0real,
    ensures
        a * y != 0real,
        (a * x) / (a * y) == x / y,
{
    let ay = a * y;
    if ay == 0real {
        lemma_no_divisors(a, y);
    }
    let (p, q) = ((a * x) / ay, x / y);
    lemma_over_times(a * x, ay);
    lemma_over_times(x, y);
    lemma_assoc(q, a, y);
    lemma_comm(q, a);
    lemma_assoc(a, q, y);
    lemma_comm(p, ay);
    lemma_comm(q, ay);
    lemma_cancel(ay, p, q);
}

/// The reflector of a longer column is the same, and makes a longer one of its first entry.
proof fn lemma_reflector_longer(v: Seq<real>, a: real)
    requires
        roots_exist(),
        a > 0real,
        v.len() > 0,
    ensures
        reflector(longer(v, a)).tau == reflector(v).tau,
        reflector(longer(v, a)).beta == a * reflector(v).beta,
        reflector(longer(v, a)).tail == reflector(v).tail,
{
    let n = v.len() as int;
    let w = longer(v, a);
    let (f, g) = (|i: int| v[i] * v[i], |i: int| w[i] * w[i]);
    let aa = a * a;
    lemma_running_dot(0real, v, v, 0, n);
    lemma_running_dot(0real, w, w, 0, n);
    assert(sum(0, f) == 0real && sum(0, g) == 0real);
    let h = |i: int| aa * f(i);
    assert forall|i: int| 0 <= i < n implies #[trigger] h(i) == g(i) by {
        lemma_regroup(a, v[i], a, v[i]);
    }
    lemma_sum_scale(n, f, aa);
    lemma_sum_ext(n, h, g);
    let (n2, m2) = (inner(v, v), inner(w, w));
    assert(m2 == aa * n2);
    lemma_sum_squares(v, n);
    lemma_positive(a, a);
    lemma_not_negative(aa, n2);
    lemma_root(n2);
    lemma_root(m2);
    let norm = n2.root();
    lemma_not_negative(a, norm);
    lemma_regroup(a, norm, a, norm);
    lemma_root_unique(m2.root(), a * norm);
    let v0 = v[0];
    if v0 < 0real {
        lemma_positive(a, -v0);
        lemma_negate(v0, a);
        lemma_comm(v0, a);
        lemma_comm(-v0, a);
    } else {
        lemma_not_negative(a, v0);
    }
    let sign: real = if v0 < 0real {
        1real
    } else {
        -1real
    };
    let sn = sign * norm;
    lemma_assoc(a, sign, norm);
    lemma_comm(a, sign);
    lemma_assoc(sign, a, norm);
    assert(sign * (a * norm) == a * sn);
    lemma_spread_sub(a, v0, sn);
    let u0 = v0 - sn;
    assert(w[0] - sign * (a * norm) == a * u0);
    if n2 == 0real {
        lemma_zero(aa);
    } else {
        lemma_positive(aa, n2);
        lemma_negate(u0, a);
        lemma_comm(u0, a);
        lemma_comm(-u0, a);
        lemma_common(a, -u0, norm);
    }
    lemma_one(norm);
    if u0 == 0real {
        assert(norm == 0real);
        lemma_zero(0real);
        assert(n2 == 0real);
        assert forall|i: int| 0 <= i < n implies #[trigger] v[i] == 0real by {}
        lemma_zero(a);
        assert(reflector(w).tail =~= reflector(v).tail);
    } else {
        lemma_common(a, v0, u0);
        assert forall|i: int| 0 <= i < n - 1 implies #[trigger] reflector(w).tail[i] == reflector(
            v,
        ).tail[i] by {
            lemma_common(a, v[i + 1], u0);
        }
        assert(reflector(w).tail =~= reflector(v).tail);
    }
}

/// The reflection of a longer vector is longer.
proof fn lemma_mirror_longer(x: Seq<real>, w: Seq<real>, t: real, a: real)
    requires
        x.len() == w.len(),
    ensures
        mirror(longer(x, a), w, t) == longer(mirror(x, w, t), a),
{
    let n = x.len() as int;
    let y = longer(x, a);
    let (f, g) = (|i: int| w[i] * x[i], |i: int| w[i] * y[i]);
    let af = |i: int| a * f(i);
    assert forall|i: int| 0 <= i < n implies #[trigger] af(i) == g(i) by {
        lemma_assoc(a, w[i], x[i]);
        lemma_comm(a, w[i]);
        lemma_assoc(w[i], a, x[i]);
    }
    lemma_sum_scale(n, f, a);
    lemma_sum_ext(n, af, g);
    let d = inner(w, x);
    assert(inner(w, y) == a * d);
    let td = t * d;
    lemma_assoc(t, a, d);
    lemma_comm(t, a);
    lemma_assoc(a, t, d);
    let (lhs, rhs) = (mirror(y, w, t), longer(mirror(x, w, t), a));
    assert forall|i: int| 0 <= i < n implies #[trigger] lhs[i] == rhs[i] by {
        lemma_assoc(a, td, w[i]);
        lemma_spread_sub(a, x[i], td * w[i]);
    }
    assert(lhs =~= rhs);
}

/// What the steps make of column `j` of the longer matrix: it is longer, but for the tail of its
/// reflector.
pub open spec fn longer_column(x: Seq<real>, y: Seq<real>, a: real, steps: int, j: int) -> bool {
    &&& y.len() == x.len()
    &&& forall|r: int|
        0 <= r < x.len() ==> #[trigger] y[r] == if j < steps && r > j {
            x[r]
        } else {
            a * x[r]
        }
}

proof fn lemma_house_longer(lanes: bool, cols: Seq<Seq<real>>, m: int, a: real, steps: int, j: int)
    requires
        roots_exist(),
        tall(cols, m),
        a > 0real,
        0 <= steps <= lesser(m, cols.len() as int),
        0 <= j < cols.len(),
    ensures
        longer_column(
            house(lanes, cols, steps)[j],
            house(lanes, stretched(cols, a), steps)[j],
            a,
            steps,
            j,
        ),
    decreases steps,
{
    let wide = stretched(cols, a);
    if steps > 0 {
        let i = steps - 1;
        lemma_house_longer(lanes, cols, m, a, i, j);
        lemma_house_longer(lanes, cols, m, a, i, i);
        lemma_house_shape(lanes, cols, m, i);
        lemma_house_shape(lanes, wide, m, i);
        let (p, q) = (house(lanes, cols, i), house(lanes, wide, i));
        let (v, w) = (p[i].skip(i), q[i].skip(i));
        assert(w =~= longer(v, a));
        lemma_reflector_longer(v, a);
        lemma_reflector(v);
        let h = reflector(v);
        let (x, y) = (p[j], q[j]);
        if j == i {
            assert(house(lanes, cols, steps)[j] == cleared(x, i));
            assert(house(lanes, wide, steps)[j] == cleared(y, i));
        } else if j > i && h.tau != 0real {
            assert(y =~= longer(x, a));
            let w = padded(i, h.tail);
            lemma_reflected_is_mirror(lanes, x, i, h.tail, h.tau);
            lemma_reflected_is_mirror(lanes, y, i, h.tail, h.tau);
            lemma_mirror_longer(x, w, h.tau, a);
        }
    }
}

proof fn lemma_unwound_same(
    lanes: bool,
    cols: Seq<Seq<real>>,
    wide: Seq<Seq<real>>,
    taus: Seq<real>,
    x: Seq<real>,
    steps: int,
)
    requires
        steps <= cols.len(),
        steps <= wide.len(),
        forall|i: int| 0 <= i < steps ==> (#[trigger] wide[i]).skip(i + 1) == cols[i].skip(i + 1),
    ensures
        unwound(lanes, wide, taus, x, steps) == unwound(lanes, cols, taus, x, steps),
    decreases steps,
{
    if steps > 0 {
        let i = steps - 1;
        assert(wide[i].skip(i + 1) == cols[i].skip(i + 1));
        let y = if taus[i] == 0real {
            x
        } else {
            reflected_below(lanes, x, i, cols[i].skip(i + 1), taus[i])
        };
        lemma_unwound_same(lanes, cols, wide, taus, y, i);
    }
}

/// A matrix times a positive number has the same orthonormal factor, and its triangular factor is
/// that of the matrix times the number; for every matrix.
pub proof fn law_qr_stretched(lanes: bool, cols: Seq<Seq<real>>, m: int, a: real)
    requires
        roots_exist(),
        tall(cols, m),
        0 <= m,
        a > 0real,
    ensures
        qr_q(lanes, stretched(cols, a), m) == qr_q(lanes, cols, m),
        forall|l: int, i: int|
            0 <= l < lesser(m, cols.len() as int) && 0 <= i < cols.len() ==> #[trigger] qr_r(
                lanes,
                stretched(cols, a),
                m,
                l,
                i,
            ) == a * qr_r(lanes, cols, m, l, i),
{
    let n = cols.len() as int;
    let k = lesser(m, n);
    let wide = stretched(cols, a);
    let (p, q) = (house(lanes, cols, k), house(lanes, wide, k));
    lemma_house_shape(lanes, cols, m, k);
    lemma_house_shape(lanes, wide, m, k);
    assert forall|j: int| 0 <= j < n implies #[trigger] longer_column(p[j], q[j], a, k, j) by {
        lemma_house_longer(lanes, cols, m, a, k, j);
    }
    assert forall|l: int| 0 <= l < k implies flips(q, l) == #[trigger] flips(p, l) by {
        assert(longer_column(p[l], q[l], a, k, l));
        let d = p[l][l];
        assert(q[l][l] == a * d);
        if d < 0real {
            lemma_positive(a, -d);
            lemma_negate(d, a);
            lemma_comm(d, a);
            lemma_comm(-d, a);
        } else {
            lemma_not_negative(a, d);
        }
    }
    let (ts, us) = (house_taus(lanes, cols, k), house_taus(lanes, wide, k));
    assert(us =~= ts) by {
        assert forall|i: int| 0 <= i < k implies #[trigger] us[i] == ts[i] by {
            lemma_house_longer(lanes, cols, m, a, i, i);
            lemma_house_shape(lanes, cols, m, i);
            lemma_house_shape(lanes, wide, m, i);
            let (x, y) = (house(lanes, cols, i)[i], house(lanes, wide, i)[i]);
            assert(y.skip(i) =~= longer(x.skip(i), a));
            lemma_reflector_longer(x.skip(i), a);
        }
    }
    assert forall|i: int| 0 <= i < k implies (#[trigger] q[i]).skip(i + 1) == p[i].skip(i + 1) by {
        assert(longer_column(p[i], q[i], a, k, i));
        assert(q[i].skip(i + 1) =~= p[i].skip(i + 1));
    }
    assert forall|c: int| 0 <= c < k implies #[trigger] qr_q(lanes, wide, m)[c] == qr_q(
        lanes,
        cols,
        m,
    )[c] by {
        lemma_unwound_same(lanes, p, q, ts, axis(m, c), k);
        assert(flips(q, c) == flips(p, c));
    }
    assert(qr_q(lanes, wide, m) =~= qr_q(lanes, cols, m));
    assert forall|l: int, i: int| 0 <= l < k && 0 <= i < n implies #[trigger] qr_r(
        lanes,
        wide,
        m,
        l,
        i,
    ) == a * qr_r(lanes, cols, m, l, i) by {
        assert(flips(q, l) == flips(p, l));
        lemma_zero(a);
        if i >= l {
            assert(longer_column(p[i], q[i], a, k, i));
            let x = p[i][l];
            assert(q[i][l] == a * x);
            lemma_negate(x, a);
            lemma_comm(x, a);
            lemma_comm(-x, a);
        }
    }
}

/// The steps of the R pass leave columns of zeros alone.
proof fn lemma_house_zero(lanes: bool, cols: Seq<Seq<real>>, m: int, steps: int)
    requires
        roots_exist(),
        tall(cols, m),
        forall|j: int, x: int| 0 <= j < cols.len() && 0 <= x < m ==> #[trigger] cols[j][x] == 0real,
        0 <= steps <= lesser(m, cols.len() as int),
    ensures
        house(lanes, cols, steps) == cols,
        forall|i: int| 0 <= i < steps ==> #[trigger] house_taus(lanes, cols, steps)[i] == 0real,
    decreases steps,
{
    if steps > 0 {
        let i = steps - 1;
        lemma_house_zero(lanes, cols, m, i);
        let x = cols[i];
        let v = x.skip(i);
        let n = v.len() as int;
        let h = reflector(v);
        lemma_running_dot(0real, v, v, 0, n);
        let f = |k: int| v[k] * v[k];
        assert forall|k: int| 0 <= k < n implies #[trigger] f(k) == 0real by {
            assert(v[k] == cols[i][i + k]);
            lemma_zero(0real);
        }
        lemma_sum_zero(n, f);
        assert(sum(0, f) == 0real);
        assert(v[0] == cols[i][i]);
        let norm2 = running_dot(0real, v, v, 0, n);
        lemma_root(0real);
        assert(norm2 == 0real);
        lemma_zero(-1real);
        assert(h.tau == 0real && h.beta == 0real);
        assert(cleared(x, i) =~= x) by {
            assert forall|k: int| 0 <= k < m implies cleared(x, i)[k] == x[k] by {
                if k > i {
                    assert(cleared(x, i)[k] == h.tail[k - i - 1]);
                    assert(v[k - i] == cols[i][k]);
                }
            }
        }
        assert(house_step(lanes, cols, i) =~= cols);
        assert forall|k: int| 0 <= k < steps implies #[trigger] house_taus(lanes, cols, steps)[k]
            == 0real by {
            if k < i {
                assert(house_taus(lanes, cols, i)[k] == 0real);
            }
        }
    }
}

proof fn lemma_unwound_idle(
    lanes: bool,
    cols: Seq<Seq<real>>,
    taus: Seq<real>,
    x: Seq<real>,
    steps: int,
)
    requires
        steps <= taus.len(),
        forall|i: int| 0 <= i < steps ==> #[trigger] taus[i] == 0real,
    ensures
        unwound(lanes, cols, taus, x, steps) == x,
    decreases steps,
{
    if steps > 0 {
        assert(taus[steps - 1] == 0real);
        lemma_unwound_idle(lanes, cols, taus, x, steps - 1);
    }
}

/// The orthonormal factor of a matrix of zeros consists of the axes.
pub proof fn law_q_of_zeros(lanes: bool, cols: Seq<Seq<real>>, m: int, c: int)
    requires
        roots_exist(),
        tall(cols, m),
        forall|j: int, x: int| 0 <= j < cols.len() && 0 <= x < m ==> #[trigger] cols[j][x] == 0real,
        0 <= c < lesser(m, cols.len() as int),
    ensures
        qr_q(lanes, cols, m)[c] == axis::<real>(m, c),
{
    let k = lesser(m, cols.len() as int);
    lemma_house_zero(lanes, cols, m, k);
    let taus = house_taus(lanes, cols, k);
    lemma_unwound_idle(lanes, cols, taus, axis(m, c), k);
    assert(cols[c][c] == 0real);
    assert(qr_q(lanes, cols, m)[c] =~= axis::<real>(m, c));
}

} // verus!
