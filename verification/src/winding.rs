//! Reflections one after the other, over the mathematical numbers.

use crate::algebra::{lemma_one, lemma_zero};
use crate::exact::{
    combined, delta, inner, lemma_sum_single, lemma_sum_zero, sum,
};
use crate::house::axis;
use crate::mirror::{
    is_mirror, lemma_inner_padded, lemma_mirror_inner, lemma_mirror_linear, lemma_mirror_twice,
    mirror, padded,
};

use crate::scalar::Number;
use vstd::prelude::*;

verus! {

/// A reflection `x - t (w . x) w`.
pub struct Mirror {
    pub w: Seq<real>,
    pub t: real,
}

/// A list of orthogonal reflections of vectors of length `m`.
pub open spec fn mirrors(ms: Seq<Mirror>, m: int) -> bool {
    forall|i: int|
        0 <= i < ms.len() ==> (#[trigger] ms[i]).w.len() == m && is_mirror(ms[i].w, ms[i].t)
}

/// `x` with the first `steps` reflections applied, the first one first.
pub open spec fn wound(ms: Seq<Mirror>, x: Seq<real>, steps: int) -> Seq<real>
    decreases steps,
{
    if steps <= 0 {
        x
    } else {
        let i = steps - 1;
        mirror(wound(ms, x, i), ms[i].w, ms[i].t)
    }
}

/// `x` with the first `steps` reflections applied, the last one first.
pub open spec fn rewound(ms: Seq<Mirror>, x: Seq<real>, steps: int) -> Seq<real>
    decreases steps,
{
    if steps <= 0 {
        x
    } else {
        let i = steps - 1;
        rewound(ms, mirror(x, ms[i].w, ms[i].t), i)
    }
}

/// A reflection that leaves the first `i` entries alone.
pub proof fn lemma_mirror_below(x: Seq<real>, i: int, w: Seq<real>, t: real)
    requires
        0 <= i,
        x.len() == i + 1 + w.len(),
    ensures
        mirror(x, padded(i, w), t) == x.take(i) + mirror(x.skip(i), padded(0, w), t),
{
    let p = padded(i, w);
    let p0 = padded(0, w);
    let y = x.skip(i);
    lemma_inner_padded(i, w, x);
    lemma_inner_padded(0, w, y);
    assert(y.skip(0).skip(1) =~= y.skip(1));
    let d = inner(p, x);
    let f = t * d;
    let lhs = mirror(x, p, t);
    let rhs = x.take(i) + mirror(y, p0, t);
    assert forall|r: int| 0 <= r < x.len() implies #[trigger] lhs[r] == rhs[r] by {
        if r < i {
            lemma_zero(f);
        } else {
            assert(rhs[r] == mirror(y, p0, t)[r - i]);
            assert(p[r] == p0[r - i]);
        }
    }
    assert(lhs =~= rhs);
}

/// Without a factor there is no reflection.
pub proof fn lemma_mirror_none(x: Seq<real>, w: Seq<real>)
    ensures
        mirror(x, w, 0real) == x,
{
    let d = inner(w, x);
    lemma_zero(d);
    assert forall|r: int| 0 <= r < x.len() implies #[trigger] mirror(x, w, 0real)[r] == x[r] by {
        lemma_zero(w[r]);
    }
    assert(mirror(x, w, 0real) =~= x);
}

/// A reflection leaves a vector alone that is 0 from `i` on.
pub proof fn lemma_mirror_idle(x: Seq<real>, i: int, w: Seq<real>, t: real)
    requires
        0 <= i,
        x.len() == i + 1 + w.len(),
        forall|r: int| i <= r < x.len() ==> #[trigger] x[r] == 0real,
    ensures
        mirror(x, padded(i, w), t) == x,
{
    let p = padded(i, w);
    let f = |r: int| p[r] * x[r];
    assert forall|r: int| 0 <= r < x.len() implies #[trigger] f(r) == 0real by {
        if r < i {
            lemma_zero(x[r]);
        } else {
            lemma_zero(p[r]);
        }
    }
    lemma_sum_zero(x.len() as int, f);
    lemma_zero(t);
    let y = mirror(x, p, t);
    assert forall|r: int| 0 <= r < x.len() implies #[trigger] y[r] == x[r] by {
        lemma_zero(p[r]);
    }
    assert(y =~= x);
}

/// Winding keeps the length.
pub proof fn lemma_rewound_len(ms: Seq<Mirror>, x: Seq<real>, steps: int)
    ensures
        rewound(ms, x, steps).len() == x.len(),
    decreases steps,
{
    if steps > 0 {
        let i = steps - 1;
        let y = mirror(x, ms[i].w, ms[i].t);
        lemma_rewound_len(ms, y, i);
    }
}

/// Rewinding undoes winding.
pub proof fn lemma_rewound_wound(
    ms: Seq<Mirror>,
    m: int,
    x: Seq<real>,
    steps: int,
)
    requires
        mirrors(ms, m),
        x.len() == m,
        0 <= steps,
        steps <= ms.len(),
    ensures
        rewound(ms, wound(ms, x, steps), steps) == x,
        wound(ms, x, steps).len() == m,
    decreases steps,
{
    if steps > 0 {
        let i = steps - 1;
        lemma_rewound_wound(ms, m, x, i);
        assert(is_mirror(ms[i].w, ms[i].t));
        lemma_mirror_twice(
            wound(ms, x, i),
            ms[i].w,
            ms[i].t,
        );
    }
}

/// Rewinding keeps inner products.
pub proof fn lemma_rewound_inner(
    ms: Seq<Mirror>,
    m: int,
    x: Seq<real>,
    y: Seq<real>,
    steps: int,
)
    requires
        mirrors(ms, m),
        x.len() == m,
        y.len() == m,
        0 <= steps,
        steps <= ms.len(),
    ensures
        inner(rewound(ms, x, steps), rewound(ms, y, steps)) == inner(x, y),
    decreases steps,
{
    if steps > 0 {
        let i = steps - 1;
        let w = ms[i].w;
        let t = ms[i].t;
        assert(is_mirror(ms[i].w, ms[i].t));
        lemma_mirror_inner(x, y, w, t);
        lemma_rewound_inner(ms, m, mirror(x, w, t), mirror(y, w, t), i);
    }
}

/// Rewinding is linear.
pub proof fn lemma_rewound_linear(
    ms: Seq<Mirror>,
    m: int,
    x: Seq<real>,
    a: real,
    y: Seq<real>,
    steps: int,
)
    requires
        mirrors(ms, m),
        x.len() == m,
        y.len() == m,
        0 <= steps,
        steps <= ms.len(),
    ensures
        rewound(ms, combined(x, a, y), steps) == combined(
            rewound(ms, x, steps),
            a,
            rewound(ms, y, steps),
        ),
    decreases steps,
{
    if steps > 0 {
        let i = steps - 1;
        let w = ms[i].w;
        let t = ms[i].t;
        assert(is_mirror(ms[i].w, ms[i].t));
        lemma_mirror_linear(x, a, y, w, t);
        lemma_rewound_linear(ms, m, mirror(x, w, t), a, mirror(y, w, t), i);
    }
}

/// The first `c` entries of `x`, then zeros.
pub open spec fn leading(x: Seq<real>, c: int) -> Seq<real> {
    Seq::new(
        x.len(),
        |r: int|
            if r < c {
                x[r]
            } else {
                0real
            },
    )
}

/// Rewinding the zero vector.
pub proof fn lemma_rewound_zero(
    ms: Seq<Mirror>,
    m: int,
    x: Seq<real>,
    steps: int,
)
    requires
        mirrors(ms, m),
        x.len() == m,
        forall|r: int| 0 <= r < m ==> #[trigger] x[r] == 0real,
        0 <= steps,
        steps <= ms.len(),
    ensures
        rewound(ms, x, steps) == x,
    decreases steps,
{
    if steps > 0 {
        let i = steps - 1;
        let w = ms[i].w;
        let t = ms[i].t;
        assert(is_mirror(ms[i].w, ms[i].t));
        let f = |r: int| w[r] * x[r];
        assert forall|r: int| 0 <= r < m implies #[trigger] f(r) == 0real by {
            lemma_zero(w[r]);
        }
        lemma_sum_zero(m, f);
        lemma_zero(t);
        let y = mirror(x, w, t);
        assert forall|r: int| 0 <= r < m implies #[trigger] y[r] == x[r] by {
            lemma_zero(w[r]);
        }
        assert(y =~= x);
        lemma_rewound_zero(ms, m, x, i);
    }
}

/// A vector rewinds as the sum of its entries along the axes.
pub proof fn lemma_rewound_axes(
    ms: Seq<Mirror>,
    m: int,
    x: Seq<real>,
    steps: int,
    c: int,
    r: int,
)
    requires
        mirrors(ms, m),
        x.len() == m,
        0 <= steps,
        steps <= ms.len(),
        0 <= c <= m,
        0 <= r < m,
    ensures
        rewound(ms, leading(x, c), steps)[r] == sum(
            c,
            |d: int| x[d] * rewound(ms, axis(m, d), steps)[r],
        ),
    decreases c,
{
    let f = |d: int| x[d] * rewound(ms, axis(m, d), steps)[r];
    if c == 0 {
        lemma_rewound_zero(ms, m, leading(x, 0), steps);
        assert(sum(0, f) == 0real);
    } else {
        lemma_rewound_axes(ms, m, x, steps, c - 1, r);
        let e = axis::<real>(m, c - 1);
        let y = leading(x, c - 1);
        let a = x[c - 1];
        assert forall|s: int| 0 <= s < m implies #[trigger] leading(x, c)[s] == combined(
            y,
            a,
            e,
        )[s] by {
            lemma_zero(a);
            lemma_one(a);
        }
        assert(leading(x, c) =~= combined(y, a, e));
        lemma_rewound_linear(ms, m, y, a, e, steps);
        lemma_rewound_len(ms, y, steps);
        assert(sum(c, f) == sum(c - 1, f) + f(c - 1));
    }
}

/// The axes are orthonormal.
pub proof fn lemma_axes(m: int, c: int, d: int)
    requires
        0 <= c < m,
        0 <= d < m,
    ensures
        inner(axis::<real>(m, c), axis::<real>(m, d)) == delta(c, d),
{
    let (x, y) = (axis::<real>(m, c), axis::<real>(m, d));
    let f = |r: int| x[r] * y[r];
    assert forall|r: int| 0 <= r < m && r != c implies #[trigger] f(r) == 0real by {
        lemma_zero(y[r]);
    }
    lemma_sum_single(m, f, c);
    lemma_one(1real);
    lemma_zero(1real);
}

} // verus!
