//! What the factorisation with matrix operations is in exact arithmetic: the same as that of
//! [`qr_cpu`](crate::house::qr_cpu), up to the signs.

use crate::algebra::{
    lemma_assoc, lemma_cancel, lemma_comm, lemma_inverse, lemma_negate, lemma_not_negative,
    lemma_one, lemma_over, lemma_over_times, lemma_spread, lemma_spread_sub, lemma_square,
    lemma_zero,
};
use crate::chol_laws::{lemma_root_unique, lemma_tenth_positive};
use crate::exact::{
    combined, delta, inner, lemma_root, lemma_running_dot, lemma_sum_add, lemma_sum_at_most,
    lemma_sum_change, lemma_sum_ext, lemma_sum_scale, lemma_sum_split, lemma_sum_squares, lemma_sum_zero, sum,
};

use crate::house::{axis, house, lemma_house_shape, lesser, qr_q, qr_r, reflector, tall};
use crate::lanes::running_dot;
use crate::mirror::{
    is_mirror, lemma_inner_padded, lemma_mirror_inner, lemma_reflector, mirror, padded,
};
use crate::outcome::{close, Outcomes};
use crate::qr::{
    block_column, factors, is_top, reflects, steps_to, traces, QrStep, QrTrace, Reflection,
};
use crate::qr_laws::{house_mirrors, lemma_all_mirrors, lemma_column_wound, lemma_q_column};
use crate::scalar::{roots_exist, Number};
use crate::tensor::{unit_entry, Format, Grid};
use crate::winding::{
    leading, lemma_axes, lemma_mirror_below, lemma_mirror_idle, lemma_mirror_none,
    lemma_rewound_axes, lemma_rewound_inner, lemma_rewound_len, lemma_rewound_linear,
    lemma_rewound_wound, mirrors, rewound, wound, Mirror,
};
use vstd::arithmetic::power::{lemma_pow_positive, pow};
use vstd::prelude::*;

verus! {

/// `10^-n` lies below 1.
pub proof fn lemma_tenth_small(n: u32)
    requires
        n > 0,
    ensures
        real::tenth_pow(n) < 1real,
{
    let p = pow(10, n as nat);
    lemma_pow_positive(10, (n - 1) as nat);
    assert(p == 10 * pow(10, (n - 1) as nat)) by {
        reveal(pow);
    }
    let x = p as real;
    assert(x > 1real);
    lemma_tenth_positive(n);
    lemma_inverse(x);
    let i = 1real / x;
    assert(i == real::tenth_pow(n));
    if i >= 1real {
        lemma_not_negative(i - 1real, x - 1real);
        lemma_spread_sub(i - 1real, x, 1real);
        lemma_comm(i - 1real, x);
        lemma_spread_sub(x, i, 1real);
        lemma_comm(i, x);
    }
}

/// A reflection of a block reflects its columns.
pub proof fn lemma_reflects(
    before: Grid<real>,
    i: int,
    j: int,
    tail: Seq<real>,
    w: Seq<real>,
    tau: real,
    b: Reflection<real>,
    after: Grid<real>,
    c: int,
)
    requires
        before.wf(),
        0 <= i < before.rows,
        0 <= j <= before.cols,
        0 <= c < before.cols,
        tail.len() == before.rows - i - 1,
        w.len() == before.rows - i,
        tau == 0real || w == padded(0, tail),
        reflects(before, i, j, w, tau, b, after),
    ensures
        c < j ==> after.column(c) == before.column(c),
        c >= j ==> after.column(c) == mirror(before.column(c), padded(i, tail), tau),
{
    let x = before.column(c);
    let y = after.column(c);
    if c < j {
        assert forall|r: int| 0 <= r < before.rows implies #[trigger] y[r] == x[r] by {
            assert(after.at(r, c) == before.at(r, c));
        }
        assert(y =~= x);
    } else {
        let block = block_column(before, i, j, c - j);
        assert(block =~= x.skip(i));
        let d = b.across[c - j];
        assert(d == inner(w, block));
        let z = mirror(block, w, tau);
        assert forall|r: int| 0 <= r < before.rows - i implies #[trigger] y[i + r] == z[r] by {
            assert(after.at(i + r, c) == y[i + r]);
            let o = b.outer.at(r, c - j);
            let u = b.update.at(r, c - j);
            assert(real::difference(before.at(i + r, c), u, after.at(i + r, c)));
            let (p, q) = (seq![w[r]], seq![d]);
            let f = |n: int| p[n] * q[n];
            assert(sum(1, f) == sum(0, f) + f(0));
            assert(o == w[r] * d);
            assert(u == o * tau);
            lemma_comm(w[r], d);
            lemma_comm(d * w[r], tau);
            lemma_assoc(tau, d, w[r]);
        }
        if tau == 0real {
            lemma_mirror_none(block, w);
            lemma_mirror_none(x, padded(i, tail));
            assert forall|r: int| 0 <= r < before.rows implies #[trigger] y[r] == x[r] by {
                if r < i {
                    assert(after.at(r, c) == before.at(r, c));
                } else {
                    assert(y[i + (r - i)] == z[r - i]);
                }
            }
            assert(y =~= x);
        } else {
            lemma_mirror_below(x, i, tail, tau);
            let full = x.take(i) + z;
            assert forall|r: int| 0 <= r < before.rows implies #[trigger] y[r] == full[r] by {
                if r < i {
                    assert(after.at(r, c) == before.at(r, c));
                } else {
                    assert(y[i + (r - i)] == z[r - i]);
                }
            }
            assert(y =~= full);
        }
    }
}

/// The norm of a column, and the sign that its reflector gives it.
pub open spec fn norm_of(v: Seq<real>) -> real {
    running_dot(0real, v, v, 0, v.len() as int).root()
}

proof fn lemma_norm(v: Seq<real>)
    requires
        roots_exist(),
        v.len() > 0,
    ensures
        norm_of(v) >= 0real,
        norm_of(v) * norm_of(v) == inner(v, v),
        running_dot(0real, v, v, 0, v.len() as int) == inner(v, v),
        inner(v, v) >= 0real,
        norm_of(v) == 0real ==> reflector(v).tau == 0real,
        norm_of(v) > 0real ==> inner(v, v) > 0real,
{
    let n = v.len() as int;
    lemma_running_dot(0real, v, v, 0, n);
    assert(sum(0, |i: int| v[i] * v[i]) == 0real);
    lemma_sum_squares(v, n);
    lemma_root(inner(v, v));
}

/// The norm of a step is that of its column.
proof fn lemma_step_norm(fm: Format, before: Grid<real>, i: int, t: QrStep<real>, after: Grid<real>)
    requires
        roots_exist(),
        before.wf(),
        0 <= i < before.rows,
        i < before.cols,
        steps_to(fm, before, i, t, after),
    ensures
        t.norm == norm_of(before.column(i).skip(i)),
{
    let v = before.column(i).skip(i);
    assert(block_column(before, i, i, 0) =~= v);
    lemma_norm(v);
    let f = |r: int| t.squares[r];
    lemma_sum_ext(before.rows - i, f, |r: int| v[r] * v[r]);
    lemma_sum_ext(t.squares.len() as int, f, |n: int| t.squares[n]);
    lemma_root_unique(t.norm, norm_of(v));
}

/// A step takes the reflector of the column, or none; it takes it where the norm is 0 or not close
/// to 0.
proof fn lemma_step(fm: Format, before: Grid<real>, i: int, t: QrStep<real>, after: Grid<real>)
    requires
        roots_exist(),
        before.wf(),
        0 <= i < before.rows,
        i < before.cols,
        steps_to(fm, before, i, t, after),
    ensures
        t.w(fm).len() == before.rows - i,
        t.tau(fm) == 0real || t.tau(fm) == reflector(before.column(i).skip(i)).tau && t.w(fm)
            == padded(0, reflector(before.column(i).skip(i)).tail),
        ({
            let d = norm_of(before.column(i).skip(i));
            d == 0real || d > real::tenth_pow(8)
        }) ==> t.tau(fm) == reflector(before.column(i).skip(i)).tau,
        !t.no_norm ==> t.tau(fm) == reflector(before.column(i).skip(i)).tau,
{
    let v = before.column(i).skip(i);
    assert(block_column(before, i, i, 0) =~= v);
    let rows = before.rows - i;
    let h = reflector(v);
    lemma_norm(v);
    lemma_tenth_positive(8);
    lemma_tenth_positive(5);
    lemma_tenth_small(8);
    lemma_step_norm(fm, before, i, t, after);
    let norm = t.norm;
    // The sign.
    lemma_zero(real::tenth_pow(5));
    let v0 = v[0];
    let sign: real = if v0 < 0real {
        1real
    } else {
        -1real
    };
    assert(t.sign(fm) == sign);
    lemma_comm(norm, sign);
    let u0 = v0 - sign * norm;
    assert(t.u0 == u0);
    if t.no_norm {
        assert(t.tau(fm) == 0real);
    } else {
        assert(norm > 0real);
        // The factor.
        lemma_over_times(u0, norm);
        lemma_comm(t.ratio, norm);
        lemma_comm(u0 / norm, norm);
        lemma_cancel(norm, t.ratio, u0 / norm);
        lemma_over(u0, norm);
        lemma_over(-u0, norm);
        let inv = 1real / norm;
        lemma_comm(inv, u0);
        lemma_comm(inv, -u0);
        lemma_negate(u0, inv);
        assert((-u0) / norm == -(u0 / norm));
        lemma_negate(t.ratio, sign);
        assert(t.tau(fm) == h.tau);
        // The vector.
        assert(u0 != 0real) by {
            if v0 < 0real {
                lemma_one(norm);
            } else {
                lemma_one(norm);
            }
        }
        let p = padded(0, h.tail);
        assert forall|r: int| 0 <= r < rows implies #[trigger] t.w(fm)[r] == p[r] by {
            if r == 0 {
                lemma_zero(v0);
            } else {
                let q = t.quotients[r];
                assert(q * u0 == v[r]);
                lemma_over_times(v[r], u0);
                lemma_comm(q, u0);
                lemma_comm(v[r] / u0, u0);
                lemma_cancel(u0, q, v[r] / u0);
                assert(p[r] == h.tail[r - 1]);
            }
        }
        assert(t.w(fm) =~= p);
    }
}

/// No diagonal entry of R lies between 0 and `10^-8`, where the factorisation with matrix
/// operations takes a norm for 0.
pub open spec fn clear_cut(lanes: bool, a: Grid<real>) -> bool {
    forall|i: int|
        0 <= i < lesser(a.rows, a.cols) ==> {
            let d = #[trigger] qr_r(lanes, a.columns(), a.rows, i, i);
            d == 0real || d > real::tenth_pow(8)
        }
}

/// The diagonal of R holds the norms of the columns that were cleared.
proof fn lemma_diagonal(lanes: bool, cols: Seq<Seq<real>>, m: int, i: int)
    requires
        roots_exist(),
        tall(cols, m),
        0 <= i < lesser(m, cols.len() as int),
    ensures
        qr_r(lanes, cols, m, i, i) == norm_of(house(lanes, cols, i)[i].skip(i)),
{
    let k = lesser(m, cols.len() as int);
    lemma_column_wound(lanes, cols, m, k, i);
    lemma_column_wound(lanes, cols, m, i + 1, i);
    lemma_house_shape(lanes, cols, m, i);
    let v = house(lanes, cols, i)[i].skip(i);
    lemma_norm(v);
    let beta = reflector(v).beta;
    let norm = norm_of(v);
    lemma_one(norm);
    assert(house(lanes, cols, i + 1)[i][i] == beta);
    lemma_row_stays(lanes, cols, m, i + 1, k, i, i);
}

/// A row of a finished column stays as it is.
proof fn lemma_row_stays(
    lanes: bool,
    cols: Seq<Seq<real>>,
    m: int,
    from: int,
    to: int,
    j: int,
    r: int,
)
    requires
        roots_exist(),
        tall(cols, m),
        0 <= j < from <= to <= lesser(m, cols.len() as int),
        0 <= r <= j,
    ensures
        house(lanes, cols, to)[j][r] == house(lanes, cols, from)[j][r],
    decreases to - from,
{
    if from < to {
        lemma_row_stays(lanes, cols, m, from, to - 1, j, r);
        lemma_house_shape(lanes, cols, m, to - 1);
    }
}

/// The reflections of a factorisation.
pub open spec fn trace_mirrors(fm: Format, a: Grid<real>, tr: QrTrace<real>) -> Seq<Mirror> {
    Seq::new(
        lesser(a.rows, a.cols) as nat,
        |i: int|
            Mirror {
                w: padded(i, reflector(tr.rs[i].column(i).skip(i)).tail),
                t: tr.steps[i].tau(fm),
            },
    )
}

/// The shape of the matrix after `steps` steps.
proof fn lemma_trace_shape(fm: Format, a: Grid<real>, tr: QrTrace<real>, steps: int)
    requires
        a.wf(),
        traces(fm, a, tr),
        0 <= steps <= lesser(a.rows, a.cols),
    ensures
        tr.rs[steps].sized(a.rows, a.cols),
    decreases steps,
{
    if steps > 0 {
        lemma_trace_shape(fm, a, tr, steps - 1);
        assert(steps_to(fm, tr.rs[steps - 1], steps - 1, tr.steps[steps - 1], tr.rs[steps]));
    }
}

/// Step `i` of a factorisation is an orthogonal reflection, or none.
proof fn lemma_trace_step(fm: Format, a: Grid<real>, tr: QrTrace<real>, i: int)
    requires
        roots_exist(),
        a.wf(),
        traces(fm, a, tr),
        0 <= i < lesser(a.rows, a.cols),
    ensures
        tr.steps[i].w(fm).len() == a.rows - i,
        reflector(tr.rs[i].column(i).skip(i)).tail.len() == a.rows - i - 1,
        tr.steps[i].tau(fm) == 0real || tr.steps[i].w(fm) == padded(
            0,
            reflector(tr.rs[i].column(i).skip(i)).tail,
        ),
        trace_mirrors(fm, a, tr)[i].w.len() == a.rows,
        is_mirror(trace_mirrors(fm, a, tr)[i].w, trace_mirrors(fm, a, tr)[i].t),
{
    lemma_trace_shape(fm, a, tr, i);
    let t = tr.steps[i];
    let v = tr.rs[i].column(i).skip(i);
    let tail = reflector(v).tail;
    assert(steps_to(fm, tr.rs[i], i, t, tr.rs[i + 1]));
    lemma_step(fm, tr.rs[i], i, t, tr.rs[i + 1]);
    lemma_reflector(v);
    let (p, p0) = (padded(i, tail), padded(0, tail));
    lemma_inner_padded(i, tail, p);
    lemma_inner_padded(0, tail, p0);
    assert(p.skip(i).skip(1) =~= tail);
    assert(p0.skip(0).skip(1) =~= tail);
}

/// The steps of a factorisation are orthogonal reflections.
proof fn lemma_trace_mirrors(fm: Format, a: Grid<real>, tr: QrTrace<real>)
    requires
        roots_exist(),
        a.wf(),
        traces(fm, a, tr),
    ensures
        mirrors(trace_mirrors(fm, a, tr), a.rows),
{
    let ms = trace_mirrors(fm, a, tr);
    assert forall|i: int| 0 <= i < ms.len() implies (#[trigger] ms[i]).w.len() == a.rows
        && is_mirror(ms[i].w, ms[i].t) by {
        lemma_trace_step(fm, a, tr, i);
    }
}

/// After `steps` steps the columns are wound up, as in the R pass.
proof fn lemma_trace_r(lanes: bool, fm: Format, a: Grid<real>, tr: QrTrace<real>, steps: int)
    requires
        roots_exist(),
        a.wf(),
        traces(fm, a, tr),
        clear_cut(lanes, a),
        0 <= steps <= lesser(a.rows, a.cols),
    ensures
        tr.rs[steps].sized(a.rows, a.cols),
        forall|c: int|
            0 <= c < a.cols ==> #[trigger] tr.rs[steps].column(c) == wound(
                house_mirrors(lanes, a.columns(), a.rows),
                a.columns()[c],
                steps,
            ),
        forall|i: int|
            0 <= i < steps ==> #[trigger] trace_mirrors(fm, a, tr)[i] == house_mirrors(
                lanes,
                a.columns(),
                a.rows,
            )[i],
    decreases steps,
{
    let cols = a.columns();
    let m = a.rows;
    let ms = house_mirrors(lanes, cols, m);
    if steps == 0 {
        assert forall|c: int| 0 <= c < a.cols implies #[trigger] tr.rs[0].column(c) == wound(
            ms,
            cols[c],
            0,
        ) by {}
    } else {
        let i = steps - 1;
        lemma_trace_r(lanes, fm, a, tr, i);
        let before = tr.rs[i];
        let after = tr.rs[steps];
        let t = tr.steps[i];
        assert(steps_to(fm, before, i, t, after));
        lemma_column_wound(lanes, cols, m, i, i);
        lemma_house_shape(lanes, cols, m, i);
        let v = house(lanes, cols, i)[i].skip(i);
        assert(before.column(i) == house(lanes, cols, i)[i]);
        lemma_diagonal(lanes, cols, m, i);
        assert(qr_r(lanes, cols, m, i, i) == norm_of(v));
        lemma_step(fm, before, i, t, after);
        let tail = reflector(v).tail;
        lemma_reflector(v);
        assert(trace_mirrors(fm, a, tr)[i] == ms[i]);
        assert forall|c: int| 0 <= c < a.cols implies #[trigger] after.column(c) == wound(
            ms,
            cols[c],
            steps,
        ) by {
            lemma_reflects(before, i, i, tail, t.w(fm), t.tau(fm), t.reflection, after, c);
            assert(before.column(c) == wound(ms, cols[c], i));
            if c < i {
                lemma_column_wound(lanes, cols, m, i, c);
                lemma_mirror_idle(before.column(c), i, tail, t.tau(fm));
            }
        }
    }
}

/// From reflection `from` on the columns of Q are rewound.
proof fn lemma_trace_q(
    fm: Format,
    a: Grid<real>,
    tr: QrTrace<real>,
    from: int,
    c: int,
    x: Seq<real>,
)
    requires
        roots_exist(),
        a.wf(),
        traces(fm, a, tr),
        0 <= from <= lesser(a.rows, a.cols),
        0 <= c < lesser(a.rows, a.cols),
        x == tr.qs[from].column(c),
        tr.qs[from].sized(a.rows, lesser(a.rows, a.cols)),
    ensures
        tr.qs[0].sized(a.rows, lesser(a.rows, a.cols)),
        tr.qs[0].column(c) == rewound(trace_mirrors(fm, a, tr), x, from),
    decreases from,
{
    let ms = trace_mirrors(fm, a, tr);
    if from > 0 {
        let i = from - 1;
        lemma_trace_step(fm, a, tr, i);
        let t = tr.steps[i];
        let before = tr.qs[from];
        let after = tr.qs[i];
        let b = tr.backs[i];
        assert(reflects(before, i, 0, t.w(fm), t.tau(fm), b, after));
        let tail = reflector(tr.rs[i].column(i).skip(i)).tail;
        lemma_reflects(before, i, 0, tail, t.w(fm), t.tau(fm), b, after, c);
        assert(ms[i].w == padded(i, tail));
        lemma_trace_q(fm, a, tr, i, c, after.column(c));
    }
}

/// The columns of Q are the axes rewound.
proof fn lemma_trace_q_column(fm: Format, a: Grid<real>, tr: QrTrace<real>, c: int)
    requires
        roots_exist(),
        a.wf(),
        traces(fm, a, tr),
        0 <= c < lesser(a.rows, a.cols),
    ensures
        tr.qs[0].sized(a.rows, lesser(a.rows, a.cols)),
        tr.qs[0].column(c) == rewound(
            trace_mirrors(fm, a, tr),
            axis(a.rows, c),
            lesser(a.rows, a.cols),
        ),
{
    let k = lesser(a.rows, a.cols);
    let unit = tr.qs[k];
    assert forall|r: int| 0 <= r < a.rows implies unit.column(c)[r] == axis::<real>(a.rows, c)[r] by {
        assert(unit.at(r, c) == real::whole(fm, unit_entry(r, c)));
    }
    assert(unit.column(c) =~= axis::<real>(a.rows, c));
    lemma_trace_q(fm, a, tr, k, c, unit.column(c));
}

/// Where no norm was taken for 0, the reflections are those of the R pass.
proof fn lemma_trace_same(lanes: bool, fm: Format, a: Grid<real>, tr: QrTrace<real>)
    requires
        roots_exist(),
        a.wf(),
        traces(fm, a, tr),
        clear_cut(lanes, a),
    ensures
        trace_mirrors(fm, a, tr) == house_mirrors(lanes, a.columns(), a.rows),
{
    lemma_trace_r(lanes, fm, a, tr, lesser(a.rows, a.cols));
    assert(trace_mirrors(fm, a, tr) =~= house_mirrors(lanes, a.columns(), a.rows));
}

/// The trace of the factors `q` and `r`.
spec fn trace_of(
    fm: Format,
    a: Grid<real>,
    reduced: bool,
    q: Grid<real>,
    r: Grid<real>,
) -> QrTrace<real> {
    choose|tr: QrTrace<real>|
        {
            &&& #[trigger] traces(fm, a, tr)
            &&& q == tr.qs[0]
            &&& is_top(tr.rs[lesser(a.rows, a.cols)], reduced, r)
        }
}

/// The factors multiply back to the matrix: `A = Q R`.
pub proof fn law_tensor_product(
    lanes: bool,
    fm: Format,
    a: Grid<real>,
    reduced: bool,
    q: Grid<real>,
    r: Grid<real>,
    x: int,
    j: int,
)
    requires
        roots_exist(),
        a.wf(),
        factors(fm, a, reduced, q, r),
        clear_cut(lanes, a),
        0 <= x < a.rows,
        0 <= j < a.cols,
    ensures
        a.at(x, j) == sum(lesser(a.rows, a.cols), |c: int| q.at(x, c) * r.at(c, j)),
{
    let tr = trace_of(fm, a, reduced, q, r);
    let cols = a.columns();
    let m = a.rows;
    let k = lesser(a.rows, a.cols);
    let ms = house_mirrors(lanes, cols, m);
    lemma_trace_r(lanes, fm, a, tr, k);
    lemma_trace_same(lanes, fm, a, tr);
    let y = wound(ms, cols[j], k);
    let full = tr.rs[k];
    assert(full.column(j) == y);
    lemma_column_wound(lanes, cols, m, k, j);
    lemma_all_mirrors(lanes, cols, m);
    lemma_rewound_wound(ms, m, cols[j], k);
    assert(leading(y, k) =~= y);
    lemma_rewound_axes(ms, m, y, k, k, x);
    let f = |d: int| y[d] * rewound(ms, axis(m, d), k)[x];
    let g = |c: int| q.at(x, c) * r.at(c, j);
    assert forall|c: int| 0 <= c < k implies #[trigger] f(c) == g(c) by {
        lemma_trace_q_column(fm, a, tr, c);
        assert(q.column(c)[x] == q.at(x, c));
        assert(full.column(j)[c] == full.at(c, j));
        assert(r.at(c, j) == full.at(c, j));
        lemma_comm(y[c], q.at(x, c));
    }
    lemma_sum_ext(k, f, g);
}

/// Column `j` is wound up to its own step, and then left alone.
proof fn lemma_trace_column(fm: Format, a: Grid<real>, tr: QrTrace<real>, j: int, steps: int)
    requires
        roots_exist(),
        a.wf(),
        traces(fm, a, tr),
        0 <= j < a.cols,
        0 <= steps <= lesser(a.rows, a.cols),
    ensures
        tr.rs[steps].sized(a.rows, a.cols),
        tr.rs[steps].column(j) == wound(
            trace_mirrors(fm, a, tr),
            a.column(j),
            lesser(steps, j + 1),
        ),
    decreases steps,
{
    if steps > 0 {
        let i = steps - 1;
        lemma_trace_column(fm, a, tr, j, i);
        lemma_trace_step(fm, a, tr, i);
        let t = tr.steps[i];
        let tail = reflector(tr.rs[i].column(i).skip(i)).tail;
        assert(steps_to(fm, tr.rs[i], i, t, tr.rs[steps]));
        lemma_reflects(
            tr.rs[i],
            i,
            i,
            tail,
            t.w(fm),
            t.tau(fm),
            t.reflection,
            tr.rs[steps],
            j,
        );
    }
}

/// A column that its own step cleared stays as it is.
proof fn lemma_trace_cleared(fm: Format, a: Grid<real>, tr: QrTrace<real>, j: int, steps: int)
    requires
        roots_exist(),
        a.wf(),
        traces(fm, a, tr),
        0 <= j < steps <= lesser(a.rows, a.cols),
        !tr.steps[j].no_norm,
    ensures
        wound(trace_mirrors(fm, a, tr), a.column(j), steps) == wound(
            trace_mirrors(fm, a, tr),
            a.column(j),
            j + 1,
        ),
        wound(trace_mirrors(fm, a, tr), a.column(j), j + 1).len() == a.rows,
        forall|r: int|
            j < r < a.rows ==> #[trigger] wound(trace_mirrors(fm, a, tr), a.column(j), j + 1)[r]
                == 0real,
    decreases steps,
{
    let ms = trace_mirrors(fm, a, tr);
    let col = a.column(j);
    lemma_trace_mirrors(fm, a, tr);
    lemma_rewound_wound(ms, a.rows, col, j + 1);
    let x = wound(ms, col, j + 1);
    lemma_trace_column(fm, a, tr, j, j);
    let t = tr.steps[j];
    let before = tr.rs[j].column(j);
    let v = before.skip(j);
    assert(steps_to(fm, tr.rs[j], j, t, tr.rs[j + 1]));
    lemma_step(fm, tr.rs[j], j, t, tr.rs[j + 1]);
    lemma_reflector(v);
    lemma_mirror_below(before, j, reflector(v).tail, t.tau(fm));
    assert forall|r: int| j < r < a.rows implies #[trigger] x[r] == 0real by {
        assert(x[r] == mirror(v, padded(0, reflector(v).tail), reflector(v).tau)[r - j]);
    }
    if steps > j + 1 {
        let i = steps - 1;
        lemma_trace_cleared(fm, a, tr, j, i);
        lemma_trace_step(fm, a, tr, i);
        let tail = reflector(tr.rs[i].column(i).skip(i)).tail;
        lemma_mirror_idle(x, i, tail, ms[i].t);
    }
}

/// Later reflections leave the rows above them alone, and keep the length.
proof fn lemma_trace_below(
    fm: Format,
    a: Grid<real>,
    tr: QrTrace<real>,
    x: Seq<real>,
    from: int,
    to: int,
)
    requires
        roots_exist(),
        a.wf(),
        traces(fm, a, tr),
        x.len() == a.rows,
        0 <= from <= to <= lesser(a.rows, a.cols),
    ensures
        wound(trace_mirrors(fm, a, tr), x, to).len() == a.rows,
        wound(trace_mirrors(fm, a, tr), x, from).len() == a.rows,
        inner(
            wound(trace_mirrors(fm, a, tr), x, to),
            wound(trace_mirrors(fm, a, tr), x, to),
        ) == inner(
            wound(trace_mirrors(fm, a, tr), x, from),
            wound(trace_mirrors(fm, a, tr), x, from),
        ),
        forall|r: int|
            0 <= r < from ==> #[trigger] wound(trace_mirrors(fm, a, tr), x, to)[r] == wound(
                trace_mirrors(fm, a, tr),
                x,
                from,
            )[r],
    decreases to - from,
{
    let ms = trace_mirrors(fm, a, tr);
    lemma_trace_mirrors(fm, a, tr);
    lemma_rewound_wound(ms, a.rows, x, from);
    if from < to {
        let i = to - 1;
        lemma_trace_below(fm, a, tr, x, from, i);
        lemma_trace_step(fm, a, tr, i);
        let y = wound(ms, x, i);
        let tail = reflector(tr.rs[i].column(i).skip(i)).tail;
        lemma_mirror_inner(y, y, ms[i].w, ms[i].t);
        lemma_mirror_below(y, i, tail, ms[i].t);
    }
}

/// Squares are in the order of their roots.
pub proof fn lemma_squares_order(x: real, y: real)
    requires
        0real <= x <= y,
    ensures
        x * x <= y * y,
{
    lemma_not_negative(y - x, y + x);
    lemma_spread(y - x, y, x);
    lemma_comm(y - x, y);
    lemma_comm(y - x, x);
    lemma_spread_sub(y, y, x);
    lemma_spread_sub(x, y, x);
    lemma_comm(y, x);
}

/// What is left of a column whose norm was taken for 0 is small.
proof fn lemma_rest(x: Seq<real>, y: Seq<real>, k: int, j: int)
    requires
        roots_exist(),
        x.len() == y.len(),
        0 <= j < k <= x.len(),
        inner(x, x) == inner(y, y),
        forall|r: int| 0 <= r <= j ==> #[trigger] y[r] == x[r],
        norm_of(x.skip(j)) <= real::tenth_pow(8),
    ensures
        ({
            let e = combined(y, -1real, leading(x, k));
            inner(e, e) <= 4real * (real::tenth_pow(8) * real::tenth_pow(8))
        }),
{
    let m = x.len() as int;
    let at = j + 1;
    let e = combined(y, -1real, leading(x, k));
    let f = |r: int| e[r] * e[r];
    let (xx, yy) = (|r: int| x[r] * x[r], |r: int| y[r] * y[r]);
    let (xr, yr) = (|r: int| xx(at + r), |r: int| yy(at + r));
    let fr = |r: int| f(at + r);
    let n = m - at;
    lemma_sum_split(n, at, xx);
    lemma_sum_split(n, at, yy);
    lemma_sum_split(n, at, f);
    lemma_sum_ext(at, xx, yy);
    assert forall|r: int| 0 <= r < at implies #[trigger] f(r) == 0real by {
        assert(y[r] == x[r]);
        lemma_one(x[r]);
        lemma_zero(0real);
    }
    lemma_sum_zero(at, f);
    lemma_sum_ext(n, |r: int| f(at + r), fr);
    lemma_sum_ext(n, |r: int| xx(at + r), xr);
    lemma_sum_ext(n, |r: int| yy(at + r), yr);
    let d = sum(n, xr);
    assert(sum(n, yr) == d);
    // (p - q)^2 <= 2 p^2 + 2 q^2
    let both = |r: int| xr(r) + yr(r);
    let twice = |r: int| 2real * both(r);
    assert forall|r: int| 0 <= r < n implies #[trigger] fr(r) <= twice(r) by {
        let p = y[at + r];
        let q = leading(x, k)[at + r];
        let s = x[at + r];
        lemma_one(q);
        assert(e[at + r] == p - q);
        let (u, w) = (p - q, p + q);
        lemma_square(w);
        lemma_square(s);
        lemma_zero(0real);
        lemma_spread_sub(u, p, q);
        lemma_comm(u, p);
        lemma_comm(u, q);
        lemma_spread_sub(p, p, q);
        lemma_spread_sub(q, p, q);
        lemma_spread(w, p, q);
        lemma_comm(w, p);
        lemma_comm(w, q);
        lemma_spread(p, p, q);
        lemma_spread(q, p, q);
        lemma_comm(p, q);
    }
    lemma_sum_at_most(n, fr, twice);
    lemma_sum_scale(n, both, 2real);
    lemma_sum_ext(n, twice, |r: int| 2real * both(r));
    lemma_sum_add(n, xr, yr);
    lemma_sum_ext(n, both, |r: int| xr(r) + yr(r));
    assert(inner(e, e) <= 4real * d);
    // The rest is not more than the norm.
    let v = x.skip(j);
    lemma_norm(v);
    let vv = |r: int| v[r] * v[r];
    lemma_sum_split(n, 1, vv);
    assert(sum(1, vv) == sum(0, vv) + vv(0));
    lemma_square(v[0]);
    lemma_sum_ext(n, |r: int| vv(1 + r), xr);
    assert(d <= inner(v, v));
    lemma_squares_order(norm_of(v), real::tenth_pow(8));
}

/// The factors multiply back to the matrix, for every matrix, up to the threshold below which a
/// norm is taken for 0: the squares of the differences in a column add up to `4 (10^-8)^2` at most.
pub proof fn law_tensor_near(
    fm: Format,
    a: Grid<real>,
    reduced: bool,
    q: Grid<real>,
    r: Grid<real>,
    j: int,
)
    requires
        roots_exist(),
        a.wf(),
        factors(fm, a, reduced, q, r),
        0 <= j < a.cols,
    ensures
        sum(
            a.rows,
            |x: int|
                {
                    let e = a.at(x, j) - sum(
                        lesser(a.rows, a.cols),
                        |c: int| q.at(x, c) * r.at(c, j),
                    );
                    e * e
                },
        ) <= 4real * (real::tenth_pow(8) * real::tenth_pow(8)),
{
    let tr = trace_of(fm, a, reduced, q, r);
    let m = a.rows;
    let k = lesser(a.rows, a.cols);
    let ms = trace_mirrors(fm, a, tr);
    let col = a.column(j);
    let at = lesser(k, j + 1);
    let full = tr.rs[k];
    lemma_trace_column(fm, a, tr, j, k);
    lemma_trace_mirrors(fm, a, tr);
    lemma_trace_below(fm, a, tr, col, at, k);
    lemma_rewound_wound(ms, m, col, k);
    let x = wound(ms, col, at);
    let y = wound(ms, col, k);
    let lead = leading(x, k);
    let e = combined(y, -1real, lead);
    lemma_tenth_positive(8);
    let eps = real::tenth_pow(8);
    lemma_square(eps);
    assert(inner(e, e) <= 4real * (eps * eps)) by {
        if j < k && tr.steps[j].no_norm {
            // The step did nothing.
            lemma_trace_shape(fm, a, tr, j);
            lemma_trace_column(fm, a, tr, j, j);
            let t = tr.steps[j];
            let before = tr.rs[j].column(j);
            assert(steps_to(fm, tr.rs[j], j, t, tr.rs[j + 1]));
            lemma_step_norm(fm, tr.rs[j], j, t, tr.rs[j + 1]);
            lemma_mirror_none(wound(ms, col, j), ms[j].w);
            assert(x == before);
            lemma_zero(real::tenth_pow(5));
            lemma_rest(x, y, k, j);
        } else {
            if j < k {
                // The step cleared the column, so that the later ones leave it alone.
                lemma_trace_cleared(fm, a, tr, j, k);
            }
            assert forall|i: int| 0 <= i < m implies #[trigger] e[i] == 0real by {
                lemma_one(y[i]);
                lemma_zero(-1real);
            }
            let f = |i: int| e[i] * e[i];
            assert forall|i: int| 0 <= i < m implies #[trigger] f(i) == 0real by {
                lemma_zero(0real);
            }
            lemma_sum_zero(m, f);
        }
    }
    lemma_rewound_inner(ms, m, e, e, k);
    lemma_rewound_linear(ms, m, y, -1real, lead, k);
    lemma_rewound_len(ms, lead, k);
    lemma_rewound_len(ms, e, k);
    let z = rewound(ms, e, k);
    let f = |i: int| z[i] * z[i];
    let g = |i: int|
        {
            let d = a.at(i, j) - sum(lesser(a.rows, a.cols), |c: int| q.at(i, c) * r.at(c, j));
            d * d
        };
    assert forall|i: int| 0 <= i < m implies #[trigger] f(i) == g(i) by {
        lemma_rewound_axes(ms, m, x, k, k, i);
        let h = |d: int| x[d] * rewound(ms, axis(m, d), k)[i];
        let p = |c: int| q.at(i, c) * r.at(c, j);
        assert forall|c: int| 0 <= c < k implies #[trigger] h(c) == p(c) by {
            lemma_trace_q_column(fm, a, tr, c);
            assert(q.column(c)[i] == q.at(i, c));
            assert(full.column(j)[c] == full.at(c, j));
            assert(r.at(c, j) == full.at(c, j));
            lemma_comm(x[c], q.at(i, c));
        }
        lemma_sum_ext(k, h, p);
        let s = sum(k, p);
        lemma_one(s);
        assert(col[i] == a.at(i, j));
        assert(z[i] == col[i] - s);
    }
    lemma_sum_ext(m, f, g);
}

/// The columns of Q are orthonormal, for every matrix.
pub proof fn law_tensor_orthonormal(
    fm: Format,
    a: Grid<real>,
    reduced: bool,
    q: Grid<real>,
    r: Grid<real>,
    c: int,
    d: int,
)
    requires
        roots_exist(),
        a.wf(),
        factors(fm, a, reduced, q, r),
        0 <= c < lesser(a.rows, a.cols),
        0 <= d < lesser(a.rows, a.cols),
    ensures
        inner(q.column(c), q.column(d)) == delta(c, d),
{
    let tr = trace_of(fm, a, reduced, q, r);
    let m = a.rows;
    lemma_trace_q_column(fm, a, tr, c);
    lemma_trace_q_column(fm, a, tr, d);
    lemma_trace_mirrors(fm, a, tr);
    lemma_rewound_inner(
        trace_mirrors(fm, a, tr),
        m,
        axis(m, c),
        axis(m, d),
        lesser(a.rows, a.cols),
    );
    lemma_axes(m, c, d);
}

/// R is upper triangular.
pub proof fn law_tensor_triangular(
    lanes: bool,
    fm: Format,
    a: Grid<real>,
    reduced: bool,
    q: Grid<real>,
    r: Grid<real>,
    i: int,
    j: int,
)
    requires
        roots_exist(),
        a.wf(),
        factors(fm, a, reduced, q, r),
        clear_cut(lanes, a),
        0 <= j < i < r.rows,
        j < a.cols,
    ensures
        r.at(i, j) == 0real,
{
    let tr = trace_of(fm, a, reduced, q, r);
    let k = lesser(a.rows, a.cols);
    lemma_trace_r(lanes, fm, a, tr, k);
    lemma_column_wound(lanes, a.columns(), a.rows, k, j);
    let full = tr.rs[k];
    assert(full.column(j)[i] == full.at(i, j));
}

/// An entry is not larger than its vector.
proof fn lemma_entry(v: Seq<real>, r: int)
    requires
        0 <= r < v.len(),
    ensures
        v[r] * v[r] <= inner(v, v),
{
    let n = v.len() as int;
    let w = v.update(r, 0real);
    lemma_sum_squares(w, n);
    lemma_zero(0real);
    lemma_sum_change(n, |i: int| v[i] * v[i], |i: int| w[i] * w[i], r);
}

/// R is upper triangular, for every matrix, up to the threshold below which a norm is taken for 0:
/// what stands below the diagonal is not larger.
pub proof fn law_tensor_triangular_near(
    fm: Format,
    a: Grid<real>,
    reduced: bool,
    q: Grid<real>,
    r: Grid<real>,
    i: int,
    j: int,
)
    requires
        roots_exist(),
        a.wf(),
        factors(fm, a, reduced, q, r),
        0 <= j < i < r.rows,
        j < a.cols,
    ensures
        r.at(i, j) * r.at(i, j) <= real::tenth_pow(8) * real::tenth_pow(8),
{
    let tr = trace_of(fm, a, reduced, q, r);
    let k = lesser(a.rows, a.cols);
    let ms = trace_mirrors(fm, a, tr);
    let col = a.column(j);
    let full = tr.rs[k];
    let eps = real::tenth_pow(8);
    lemma_trace_column(fm, a, tr, j, k);
    lemma_tenth_positive(8);
    lemma_square(eps);
    let x = wound(ms, col, j + 1);
    assert(full.column(j) == x);
    assert(full.column(j)[i] == full.at(i, j));
    if tr.steps[j].no_norm {
        let t = tr.steps[j];
        lemma_trace_column(fm, a, tr, j, j);
        let before = tr.rs[j].column(j);
        let v = before.skip(j);
        assert(steps_to(fm, tr.rs[j], j, t, tr.rs[j + 1]));
        lemma_step_norm(fm, tr.rs[j], j, t, tr.rs[j + 1]);
        lemma_mirror_none(wound(ms, col, j), ms[j].w);
        assert(x == before);
        lemma_zero(real::tenth_pow(5));
        lemma_norm(v);
        lemma_entry(v, i - j);
        lemma_squares_order(norm_of(v), eps);
    } else {
        lemma_trace_cleared(fm, a, tr, j, j + 1);
        lemma_zero(0real);
    }
}

/// The factorisation with matrix operations and [`qr_cpu`](crate::house::qr_cpu) give the same
/// factors, but for the signs: row `c` of R and column `c` of Q change theirs where the diagonal
/// entry of the first is negative.
pub proof fn law_same_factors(
    lanes: bool,
    fm: Format,
    a: Grid<real>,
    reduced: bool,
    q: Grid<real>,
    r: Grid<real>,
    c: int,
    x: int,
    j: int,
)
    requires
        roots_exist(),
        a.wf(),
        factors(fm, a, reduced, q, r),
        clear_cut(lanes, a),
        0 <= c < lesser(a.rows, a.cols),
        0 <= x < a.rows,
        c <= j < a.cols,
    ensures
        qr_q(lanes, a.columns(), a.rows)[c][x] == q.at(x, c) * (if r.at(c, c) < 0real {
            -1real
        } else {
            1real
        }),
        qr_r(lanes, a.columns(), a.rows, c, j) == r.at(c, j) * (if r.at(c, c) < 0real {
            -1real
        } else {
            1real
        }),
{
    let tr = trace_of(fm, a, reduced, q, r);
    let cols = a.columns();
    let m = a.rows;
    let k = lesser(a.rows, a.cols);
    lemma_trace_r(lanes, fm, a, tr, k);
    lemma_trace_same(lanes, fm, a, tr);
    lemma_trace_q_column(fm, a, tr, c);
    lemma_q_column(lanes, cols, m, c);
    lemma_column_wound(lanes, cols, m, k, j);
    lemma_column_wound(lanes, cols, m, k, c);
    let full = tr.rs[k];
    assert(full.column(j)[c] == full.at(c, j));
    assert(full.column(c)[c] == full.at(c, c));
    assert(q.column(c)[x] == q.at(x, c));
    let (qx, rj) = (q.at(x, c), r.at(c, j));
    lemma_one(qx);
    lemma_one(rj);
    lemma_negate(1real, qx);
    lemma_negate(1real, rj);
    lemma_comm(qx, -1real);
    lemma_comm(rj, -1real);
    lemma_one(qx);
    lemma_one(rj);
}

} // verus!
