//! What the Householder factorisation is in exact arithmetic.
//!
//! The laws are about [`qr_q`] and [`qr_r`], the factors that
//! [`qr_cpu`](crate::house::qr_cpu) returns, at the mathematical numbers. They hold with lanes and
//! without, for matrices of every shape and rank.

use crate::algebra::{lemma_comm, lemma_negate, lemma_one, lemma_regroup, lemma_zero};
use crate::exact::{delta, inner, lemma_sum_ext, lemma_sum_scale, sum};
use crate::house::{
    axis, cleared, flips, house, house_tau, house_taus, lemma_house_shape, lesser, qr_q, qr_r,
    reflected_below, reflector, tall, unwound,
};
use crate::mirror::{
    is_mirror, lemma_inner_padded, lemma_reflected_is_mirror, lemma_reflector, mirror, padded,
};
use crate::scalar::{roots_exist, Number};
use crate::winding::{
    leading, lemma_axes, lemma_mirror_below, lemma_mirror_idle, lemma_mirror_none,
    lemma_rewound_axes, lemma_rewound_inner, lemma_rewound_len, lemma_rewound_wound, mirrors,
    rewound, wound, Mirror,
};
use vstd::prelude::*;

verus! {

/// The vector of reflection `i` of the R pass.
pub open spec fn mirror_vector(lanes: bool, cols: Seq<Seq<real>>, i: int) -> Seq<real> {
    padded(i, reflector(house(lanes, cols, i)[i].skip(i)).tail)
}

/// The reflections of the R pass over the matrix with columns `cols`, of `m` entries each.
pub open spec fn house_mirrors(lanes: bool, cols: Seq<Seq<real>>, m: int) -> Seq<Mirror> {
    Seq::new(
        lesser(m, cols.len() as int) as nat,
        |i: int| Mirror { w: mirror_vector(lanes, cols, i), t: house_tau(lanes, cols, i) },
    )
}

/// Every step of the R pass is a reflection.
pub proof fn lemma_mirrors(lanes: bool, cols: Seq<Seq<real>>, m: int, i: int)
    requires
        roots_exist(),
        tall(cols, m),
        0 <= i < m,
        i < cols.len(),
    ensures
        mirror_vector(lanes, cols, i).len() == m,
        is_mirror(mirror_vector(lanes, cols, i), house_tau(lanes, cols, i)),
{
    lemma_house_shape(lanes, cols, m, i);
    let v = house(lanes, cols, i)[i].skip(i);
    lemma_reflector(v);
    let w = reflector(v).tail;
    let p = padded(i, w);
    let p0 = padded(0, w);
    lemma_inner_padded(i, w, p);
    lemma_inner_padded(0, w, p0);
    assert(p.skip(i).skip(1) =~= w);
    assert(p0.skip(0).skip(1) =~= w);
}

/// The steps of the R pass are reflections.
pub proof fn lemma_all_mirrors(lanes: bool, cols: Seq<Seq<real>>, m: int)
    requires
        roots_exist(),
        tall(cols, m),
        0 <= m,
    ensures
        mirrors(house_mirrors(lanes, cols, m), m),
{
    let ms = house_mirrors(lanes, cols, m);
    assert forall|i: int| 0 <= i < ms.len() implies (#[trigger] ms[i]).w.len() == m && is_mirror(
        ms[i].w,
        ms[i].t,
    ) by {
        lemma_mirrors(lanes, cols, m, i);
    }
}

/// What the columns hold after `steps` steps: column `j` is wound up, and below the diagonal,
/// where that is 0, it keeps its reflector.
pub open spec fn column_wound(
    lanes: bool,
    cols: Seq<Seq<real>>,
    m: int,
    steps: int,
    j: int,
) -> bool {
    let x = house(lanes, cols, steps)[j];
    let y = wound(house_mirrors(lanes, cols, m), cols[j], steps);
    &&& y.len() == m
    &&& j >= steps ==> x == y
    &&& j < steps ==> {
        &&& forall|r: int| 0 <= r <= j ==> #[trigger] x[r] == y[r]
        &&& forall|r: int| j < r < m ==> #[trigger] y[r] == 0real
        &&& x.skip(j + 1) == reflector(house(lanes, cols, j)[j].skip(j)).tail
    }
}

/// The R pass winds every column up.
pub proof fn lemma_column_wound(lanes: bool, cols: Seq<Seq<real>>, m: int, steps: int, j: int)
    requires
        roots_exist(),
        tall(cols, m),
        0 <= steps <= m,
        steps <= cols.len(),
        0 <= j < cols.len(),
    ensures
        column_wound(lanes, cols, m, steps, j),
    decreases steps,
{
    if steps > 0 {
        let i = steps - 1;
        lemma_column_wound(lanes, cols, m, i, j);
        lemma_house_shape(lanes, cols, m, i);
        lemma_mirrors(lanes, cols, m, i);
        let state = house(lanes, cols, i);
        let v = state[i].skip(i);
        let h = reflector(v);
        let p = mirror_vector(lanes, cols, i);
        let x = state[j];
        let y = wound(house_mirrors(lanes, cols, m), cols[j], i);
        let z = wound(house_mirrors(lanes, cols, m), cols[j], steps);
        assert(z == mirror(y, p, h.tau));
        let next = house(lanes, cols, steps)[j];
        if j > i {
            if h.tau == 0real {
                lemma_mirror_none(y, p);
            } else {
                lemma_reflector(v);
                lemma_reflected_is_mirror(lanes, x, i, h.tail, h.tau);
            }
        } else if j == i {
            lemma_reflector(v);
            lemma_mirror_below(x, i, h.tail, h.tau);
            assert(next == cleared(x, i));
            assert forall|r: int| 0 <= r <= j implies #[trigger] next[r] == z[r] by {}
            assert forall|r: int| j < r < m implies #[trigger] z[r] == 0real by {
                let y0 = mirror(v, padded(0, h.tail), h.tau);
                assert(z[r] == y0[r - i]);
            }
            assert(next.skip(j + 1) =~= h.tail);
        } else {
            // The column is 0 where the reflection is not.
            lemma_mirror_idle(y, i, h.tail, h.tau);
        }
    }
}

/// The Q pass rewinds.
pub proof fn lemma_unwound(
    lanes: bool,
    cols: Seq<Seq<real>>,
    m: int,
    k: int,
    x: Seq<real>,
    steps: int,
)
    requires
        roots_exist(),
        tall(cols, m),
        x.len() == m,
        k == lesser(m, cols.len() as int),
        0 <= steps <= k,
    ensures
        unwound(lanes, house(lanes, cols, k), house_taus(lanes, cols, k), x, steps) == rewound(
            house_mirrors(lanes, cols, m),
            x,
            steps,
        ),
    decreases steps,
{
    if steps > 0 {
        let i = steps - 1;
        let done = house(lanes, cols, k);
        let w = mirror_vector(lanes, cols, i);
        let t = house_tau(lanes, cols, i);
        lemma_column_wound(lanes, cols, m, k, i);
        lemma_house_shape(lanes, cols, m, i);
        lemma_house_shape(lanes, cols, m, k);
        let tail = done[i].skip(i + 1);
        assert(w == padded(i, tail));
        let y = if t == 0real {
            x
        } else {
            reflected_below(lanes, x, i, tail, t)
        };
        if t == 0real {
            lemma_mirror_none(x, w);
        } else {
            lemma_reflected_is_mirror(lanes, x, i, tail, t);
        }
        assert(y == mirror(x, w, t));
        lemma_unwound(lanes, cols, m, k, y, i);
    }
}

/// What a column of Q is: its axis rewound, with the sign of the diagonal of R.
pub proof fn lemma_q_column(lanes: bool, cols: Seq<Seq<real>>, m: int, c: int)
    requires
        roots_exist(),
        tall(cols, m),
        0 <= m,
        0 <= c < lesser(m, cols.len() as int),
    ensures
        ({
            let k = lesser(m, cols.len() as int);
            let x = rewound(house_mirrors(lanes, cols, m), axis(m, c), k);
            let q = qr_q(lanes, cols, m)[c];
            &&& x.len() == m
            &&& q.len() == m
            &&& forall|r: int|
                0 <= r < m ==> #[trigger] q[r] == if flips(house(lanes, cols, k), c) {
                    -x[r]
                } else {
                    x[r]
                }
        }),
{
    let k = lesser(m, cols.len() as int);
    lemma_unwound(lanes, cols, m, k, axis(m, c), k);
    lemma_rewound_len(house_mirrors(lanes, cols, m), axis(m, c), k);
}

/// The columns of Q are orthonormal.
pub proof fn law_q_orthonormal(lanes: bool, cols: Seq<Seq<real>>, m: int, c: int, d: int)
    requires
        roots_exist(),
        tall(cols, m),
        0 <= m,
        0 <= c < lesser(m, cols.len() as int),
        0 <= d < lesser(m, cols.len() as int),
    ensures
        qr_q(lanes, cols, m)[c].len() == m,
        inner(qr_q(lanes, cols, m)[c], qr_q(lanes, cols, m)[d]) == delta(c, d),
{
    let k = lesser(m, cols.len() as int);
    lemma_q_column(lanes, cols, m, c);
    lemma_q_column(lanes, cols, m, d);
    let x = rewound(house_mirrors(lanes, cols, m), axis(m, c), k);
    let y = rewound(house_mirrors(lanes, cols, m), axis(m, d), k);
    lemma_all_mirrors(lanes, cols, m);
    lemma_rewound_inner(house_mirrors(lanes, cols, m), m, axis(m, c), axis(m, d), k);
    lemma_axes(m, c, d);
    let p = qr_q(lanes, cols, m)[c];
    let q = qr_q(lanes, cols, m)[d];
    let s: real = if flips(house(lanes, cols, k), c) {
        -1real
    } else {
        1real
    };
    let t: real = if flips(house(lanes, cols, k), d) {
        -1real
    } else {
        1real
    };
    let f = |r: int| p[r] * q[r];
    let g = |r: int| x[r] * y[r];
    let st = s * t;
    let sg = |r: int| st * g(r);
    assert forall|r: int| 0 <= r < m implies #[trigger] f(r) == sg(r) by {
        let (a, b) = (x[r], y[r]);
        lemma_one(a);
        lemma_one(b);
        assert(p[r] == s * a);
        assert(q[r] == t * b);
        lemma_regroup(s, a, t, b);
    }
    lemma_sum_ext(m, f, sg);
    lemma_sum_scale(m, g, st);
    if c == d {
        lemma_one(1real);
        lemma_one(-1real);
    }
    lemma_zero(st);
}

/// The factors multiply back to the matrix: `A = Q R`.
pub proof fn law_qr_product(lanes: bool, cols: Seq<Seq<real>>, m: int, r: int, j: int)
    requires
        roots_exist(),
        tall(cols, m),
        0 <= r < m,
        0 <= j < cols.len(),
    ensures
        cols[j][r] == sum(
            lesser(m, cols.len() as int),
            |c: int| qr_q(lanes, cols, m)[c][r] * qr_r(lanes, cols, m, c, j),
        ),
{
    let k = lesser(m, cols.len() as int);
    let done = house(lanes, cols, k);
    let a = cols[j];
    let ms = house_mirrors(lanes, cols, m);
    let y = wound(ms, a, k);
    lemma_column_wound(lanes, cols, m, k, j);
    lemma_all_mirrors(lanes, cols, m);
    lemma_rewound_wound(ms, m, a, k);
    assert(leading(y, k) =~= y);
    lemma_rewound_axes(ms, m, y, k, k, r);
    let f = |d: int| y[d] * rewound(ms, axis(m, d), k)[r];
    let g = |c: int| qr_q(lanes, cols, m)[c][r] * qr_r(lanes, cols, m, c, j);
    assert forall|c: int| 0 <= c < k implies #[trigger] f(c) == g(c) by {
        lemma_q_column(lanes, cols, m, c);
        let x = rewound(ms, axis(m, c), k)[r];
        let yc = y[c];
        lemma_comm(yc, x);
        if c > j {
            assert(yc == 0real);
            lemma_zero(x);
            let q = qr_q(lanes, cols, m)[c][r];
            lemma_zero(q);
        } else if flips(done, c) {
            lemma_negate(x, -yc);
            lemma_negate(yc, x);
        }
    }
    lemma_sum_ext(k, f, g);
}

/// R is upper triangular, and its diagonal is not negative.
pub proof fn law_r_triangular(lanes: bool, cols: Seq<Seq<real>>, m: int, i: int, c: int)
    requires
        0 <= c <= i < lesser(m, cols.len() as int),
    ensures
        c < i ==> qr_r(lanes, cols, m, i, c) == 0real,
        c == i ==> qr_r(lanes, cols, m, i, c) >= 0real,
{
}

} // verus!
