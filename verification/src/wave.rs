//! The R pass shared out among threads.
//!
//! A thread owns the columns `lo..hi`. In step `i` the owner of column `i` clears it and publishes
//! the reflector; then every thread reflects its own later columns. Nobody touches the columns of
//! another, so that each column goes through the same operations in the same order as when one
//! thread does all of it, and the result is the same to the last bit.

use crate::grid::{lemma_line_order, lemma_panel_bounds, lemma_panel_replace, panels};
use crate::house::{lemma_house_shape, own_reflector, update_columns};
#[allow(unused_imports)]
use crate::house::{
    cleared, house, house_step, house_taus, lesser, reflected_below, reflector, tall,
};
#[allow(unused_imports)]
use crate::plan::{lemma_owner, tiled};
#[allow(unused_imports)]
use crate::scalar::Number;
use crate::scalar::Scalar;
use vstd::prelude::*;

verus! {

/// The columns `lo..` of a thread once the owner of column `i` has cleared it.
pub open spec fn chunk_cleared<N: Number>(chunk: Seq<Seq<N>>, lo: int, i: int) -> Seq<Seq<N>> {
    if lo <= i < lo + chunk.len() {
        chunk.update(i - lo, cleared(chunk[i - lo], i))
    } else {
        chunk
    }
}

/// The columns `lo..` of a thread once it has reflected those behind column `i`.
pub open spec fn chunk_reflected<N: Number>(
    lanes: bool,
    chunk: Seq<Seq<N>>,
    lo: int,
    i: int,
    tail: Seq<N>,
    tau: N,
) -> Seq<Seq<N>> {
    Seq::new(
        chunk.len(),
        |c: int|
            if lo + c > i && !tau.same(N::nought()) {
                reflected_below(lanes, chunk[c], i, tail, tau)
            } else {
                chunk[c]
            },
    )
}

/// The owner's turn in step `i`: clears column `i` among its columns `lo..hi`, and returns the
/// factor and the tail of the reflector for all to see.
pub fn chunk_own<T: Scalar>(cols: &mut [T], m: usize, lo: usize, hi: usize, i: usize) -> (r: (
    T,
    Vec<T>,
))
    requires
        lo <= i < hi,
        i < m,
        old(cols)@.len() == (hi - lo) * m,
    ensures
        final(cols)@.len() == old(cols)@.len(),
        panels(final(cols)@, m as int, hi - lo) == chunk_cleared(
            panels(old(cols)@, m as int, hi - lo),
            lo as int,
            i as int,
        ),
        r.0 == reflector(panels(old(cols)@, m as int, hi - lo)[i - lo].skip(i as int)).tau,
        r.1@ == reflector(panels(old(cols)@, m as int, hi - lo)[i - lo].skip(i as int)).tail,
        r.1.len() == m - i - 1,
{
    let ghost flat = cols@;
    let ghost count = hi - lo;
    let at: usize = i - lo;
    proof {
        lemma_panel_bounds(m as int, count, at as int);
        lemma_panel_replace(
            flat,
            m as int,
            count,
            at as int,
            cleared(panels(flat, m as int, count)[at as int], i as int),
        );
    }
    own_reflector(cols, m, at, i)
}

/// A thread's turn in step `i`: reflects those of its columns `lo..hi` that lie behind column `i`.
pub fn chunk_update<T: Scalar>(
    cols: &mut [T],
    m: usize,
    lo: usize,
    hi: usize,
    i: usize,
    tail: &[T],
    tau: T,
    lanes: bool,
)
    requires
        lo <= hi,
        i < m,
        tail@.len() == m - i - 1,
        old(cols)@.len() == (hi - lo) * m,
    ensures
        final(cols)@.len() == old(cols)@.len(),
        panels(final(cols)@, m as int, hi - lo) == chunk_reflected(
            lanes,
            panels(old(cols)@, m as int, hi - lo),
            lo as int,
            i as int,
            tail@,
            tau,
        ),
{
    let ghost flat = cols@;
    let ghost count = hi - lo;
    if !tau.equal(T::zero()) && i < hi {
        let from: usize = if i + 1 > lo {
            i + 1 - lo
        } else {
            0
        };
        update_columns(cols, m, hi - lo, from, i, tail, tau, lanes);
    }
    assert(panels(cols@, m as int, count) =~= chunk_reflected(
        lanes,
        panels(flat, m as int, count),
        lo as int,
        i as int,
        tail@,
        tau,
    ));
}

/// A step that is shared out gives every thread its part of the step as a whole, in any
/// arithmetic: the columns `lo..hi` after both turns are the columns `lo..hi` after the step.
pub proof fn law_wavefront<N: Number>(
    lanes: bool,
    cols: Seq<Seq<N>>,
    lo: int,
    hi: int,
    i: int,
)
    requires
        0 <= lo <= hi <= cols.len(),
        0 <= i < cols.len(),
    ensures
        ({
            let h = reflector(cols[i].skip(i));
            house_step(lanes, cols, i).subrange(lo, hi) == chunk_reflected(
                lanes,
                chunk_cleared(cols.subrange(lo, hi), lo, i),
                lo,
                i,
                h.tail,
                h.tau,
            )
        }),
{
    let h = reflector(cols[i].skip(i));
    let chunk = chunk_cleared(cols.subrange(lo, hi), lo, i);
    let lhs = house_step(lanes, cols, i).subrange(lo, hi);
    let rhs = chunk_reflected(lanes, chunk, lo, i, h.tail, h.tau);
    assert forall|c: int| 0 <= c < hi - lo implies #[trigger] lhs[c] == rhs[c] by {
        assert(lhs[c] == house_step(lanes, cols, i)[lo + c]);
    }
    assert(lhs =~= rhs);
}

/// The thread that owns line `i`.
pub open spec fn owner(ranges: Seq<(usize, usize)>, i: int) -> int {
    choose|c: int| 0 <= c < ranges.len() && (#[trigger] ranges[c]).0 <= i < ranges[c].1
}

/// What every thread holds after the first `steps` steps, when the columns are shared out: in
/// each step the owner of the column publishes its reflector, and every thread takes its turn.
pub open spec fn wave<N: Number>(
    lanes: bool,
    cols: Seq<Seq<N>>,
    ranges: Seq<(usize, usize)>,
    steps: int,
) -> Seq<Seq<Seq<N>>>
    decreases steps,
{
    if steps <= 0 {
        Seq::new(ranges.len(), |c: int| cols.subrange(ranges[c].0 as int, ranges[c].1 as int))
    } else {
        let i = steps - 1;
        let held = wave(lanes, cols, ranges, i);
        let o = owner(ranges, i);
        let h = reflector(held[o][i - ranges[o].0].skip(i));
        Seq::new(
            ranges.len(),
            |c: int|
                chunk_reflected(
                    lanes,
                    chunk_cleared(held[c], ranges[c].0 as int, i),
                    ranges[c].0 as int,
                    i,
                    h.tail,
                    h.tau,
                ),
        )
    }
}

/// The whole pass, shared out among any number of threads, is the pass of one thread, in any
/// arithmetic: every thread ends with its own columns of it.
pub proof fn law_wave_pass<N: Number>(
    lanes: bool,
    cols: Seq<Seq<N>>,
    m: int,
    ranges: Seq<(usize, usize)>,
    steps: int,
)
    requires
        tall(cols, m),
        steps <= lesser(m, cols.len() as int),
        tiled(ranges, cols.len() as int),
    ensures
        wave(lanes, cols, ranges, steps).len() == ranges.len(),
        forall|c: int|
            0 <= c < ranges.len() ==> #[trigger] wave(lanes, cols, ranges, steps)[c] == house(
                lanes,
                cols,
                steps,
            ).subrange(ranges[c].0 as int, ranges[c].1 as int),
    decreases steps,
{
    if steps > 0 {
        let i = steps - 1;
        law_wave_pass(lanes, cols, m, ranges, i);
        let state = house(lanes, cols, i);
        let held = wave(lanes, cols, ranges, i);
        lemma_house_shape(lanes, cols, m, i);
        lemma_owner(ranges, cols.len() as int, ranges.len() - 1, i);
        let o = owner(ranges, i);
        assert(held[o] == state.subrange(ranges[o].0 as int, ranges[o].1 as int));
        assert(held[o][i - ranges[o].0] == state[i]);
        assert forall|c: int| 0 <= c < ranges.len() implies #[trigger] wave(
            lanes,
            cols,
            ranges,
            steps,
        )[c] == house(lanes, cols, steps).subrange(ranges[c].0 as int, ranges[c].1 as int) by {
            assert(held[c] == state.subrange(ranges[c].0 as int, ranges[c].1 as int));
            law_wavefront(lanes, state, ranges[c].0 as int, ranges[c].1 as int, i);
        }
    }
}

/// Columns `lo..hi` of a buffer, and what becomes of the buffer when they change.
proof fn lemma_middle<N>(flat: Seq<N>, m: int, n: int, lo: int, hi: int, mid: Seq<N>)
    requires
        0 <= m,
        0 <= lo <= hi <= n,
        flat.len() == n * m,
        mid.len() == (hi - lo) * m,
    ensures
        0 <= lo * m <= hi * m <= flat.len(),
        (hi - lo) * m == hi * m - lo * m,
        forall|c: int|
            0 <= c < hi - lo ==> #[trigger] panels(flat.subrange(lo * m, hi * m), m, hi - lo)[c]
                == panels(flat, m, n)[lo + c],
        forall|c: int|
            0 <= c < n ==> #[trigger] panels(
                flat.take(lo * m) + mid + flat.skip(hi * m),
                m,
                n,
            )[c] == if lo <= c < hi {
                panels(mid, m, hi - lo)[c - lo]
            } else {
                panels(flat, m, n)[c]
            },
{
    assert(0 <= lo * m <= hi * m <= n * m) by (nonlinear_arith)
        requires
            0 <= m,
            0 <= lo <= hi <= n,
    ;
    assert((hi - lo) * m == hi * m - lo * m) by (nonlinear_arith);
    let part = flat.subrange(lo * m, hi * m);
    assert forall|c: int| 0 <= c < hi - lo implies #[trigger] panels(part, m, hi - lo)[c]
        == panels(flat, m, n)[lo + c] by {
        lemma_panel_bounds(m, hi - lo, c);
        lemma_panel_bounds(m, n, lo + c);
        assert((lo + c) * m == lo * m + c * m) by (nonlinear_arith);
        assert(part.subrange(c * m, (c + 1) * m) =~= flat.subrange((lo + c) * m, (lo + c + 1) * m));
    }
    let after = flat.take(lo * m) + mid + flat.skip(hi * m);
    assert forall|c: int| 0 <= c < n implies #[trigger] panels(after, m, n)[c] == (if lo <= c < hi {
        panels(mid, m, hi - lo)[c - lo]
    } else {
        panels(flat, m, n)[c]
    }) by {
        lemma_panel_bounds(m, n, c);
        if c < lo {
            lemma_line_order(m, c, lo);
            assert(after.subrange(c * m, (c + 1) * m) =~= flat.subrange(c * m, (c + 1) * m));
        } else if c < hi {
            lemma_panel_bounds(m, hi - lo, c - lo);
            assert(c * m == lo * m + (c - lo) * m) by (nonlinear_arith);
            assert(after.subrange(c * m, (c + 1) * m) =~= mid.subrange(
                (c - lo) * m,
                (c - lo + 1) * m,
            ));
        } else {
            assert(hi * m <= c * m) by (nonlinear_arith)
                requires
                    0 <= m,
                    hi <= c,
            ;
            assert(after.subrange(c * m, (c + 1) * m) =~= flat.subrange(c * m, (c + 1) * m));
        }
    }
}

/// The turns of all threads in step `i`, one after the other.
fn take_turns<T: Scalar>(
    r: &mut [T],
    m: usize,
    n: usize,
    ranges: &[(usize, usize)],
    i: usize,
    tail: &[T],
    tau: T,
    lanes: bool,
)
    requires
        i < m,
        tail@.len() == m - i - 1,
        old(r)@.len() == n * m,
        tiled(ranges@, n as int),
    ensures
        final(r)@.len() == old(r)@.len(),
        panels(final(r)@, m as int, n as int) == chunk_reflected(
            lanes,
            panels(old(r)@, m as int, n as int),
            0,
            i as int,
            tail@,
            tau,
        ),
{
    let ghost start = panels(r@, m as int, n as int);
    let ghost all = chunk_reflected(lanes, start, 0, i as int, tail@, tau);
    let mut c: usize = 0;
    let ghost mut reached: int = 0;
    while c < ranges.len()
        invariant
            c <= ranges.len(),
            i < m,
            tail@.len() == m - i - 1,
            r@.len() == n * m,
            tiled(ranges@, n as int),
            start.len() == n,
            all == chunk_reflected(lanes, start, 0, i as int, tail@, tau),
            0 <= reached <= n,
            reached == if c == 0 {
                0
            } else {
                ranges@[c - 1].1 as int
            },
            forall|x: int|
                0 <= x < n ==> #[trigger] panels(r@, m as int, n as int)[x] == if x < reached {
                    all[x]
                } else {
                    start[x]
                },
        decreases ranges.len() - c,
    {
        let (lo, hi) = ranges[c];
        let ghost flat = r@;
        let _total = r.len();
        proof {
            if c > 0 {
                assert(ranges@[c - 1].1 == ranges@[c - 1 + 1].0);
            }
            assert(lo == reached);
            assert(lo <= hi && hi <= n) by {
                let x = ranges@[c as int];
            }
            assert(0 <= lo * m <= hi * m <= n * m && (hi - lo) * m == hi * m - lo * m)
                by (nonlinear_arith)
                requires
                    0 <= lo <= hi <= n,
            ;
            lemma_middle(
                flat,
                m as int,
                n as int,
                lo as int,
                hi as int,
                flat.subrange(lo * m, hi * m),
            );
            assert(hi * m <= _total);
        }
        let (_before, rest) = r.split_at_mut(lo * m);
        let (cols, _after) = rest.split_at_mut(hi * m - lo * m);
        assert(cols@ =~= flat.subrange(lo * m, hi * m));
        let ghost part = panels(cols@, m as int, hi - lo);
        chunk_update(cols, m, lo, hi, i, tail, tau, lanes);
        let ghost mid = cols@;
        proof {
            lemma_middle(flat, m as int, n as int, lo as int, hi as int, mid);
            assert(r@ =~= flat.take(lo * m) + mid + flat.skip(hi * m));
            assert forall|x: int| 0 <= x < n implies #[trigger] panels(r@, m as int, n as int)[x]
                == (if x < hi {
                all[x]
            } else {
                start[x]
            }) by {
                if lo <= x < hi {
                    assert(part[x - lo] == panels(flat, m as int, n as int)[lo + (x - lo)]);
                    assert(panels(mid, m as int, hi - lo)[x - lo] == chunk_reflected(
                        lanes,
                        part,
                        lo as int,
                        i as int,
                        tail@,
                        tau,
                    )[x - lo]);
                }
            }
            reached = hi as int;
        }
        c += 1;
    }
    assert(panels(r@, m as int, n as int) =~= all);
}

/// The first `min(m, n)` steps on the column-major buffer `r`, with the columns shared out by
/// `ranges`; returns the factors of the reflections.
pub fn wave_steps<T: Scalar>(
    r: &mut [T],
    m: usize,
    n: usize,
    ranges: &[(usize, usize)],
    lanes: bool,
) -> (taus: Vec<T>)
    requires
        old(r)@.len() == n * m,
        tiled(ranges@, n as int),
    ensures
        final(r)@.len() == n * m,
        panels(final(r)@, m as int, n as int) == house(
            lanes,
            panels(old(r)@, m as int, n as int),
            lesser(m as int, n as int),
        ),
        taus@ == house_taus(
            lanes,
            panels(old(r)@, m as int, n as int),
            lesser(m as int, n as int),
        ),
{
    let k: usize = if m <= n {
        m
    } else {
        n
    };
    let mut taus: Vec<T> = Vec::with_capacity(k);
    let ghost cols = panels(r@, m as int, n as int);
    proof {
        assert forall|c: int| 0 <= c < n implies (#[trigger] cols[c]).len() == m by {
            lemma_panel_bounds(m as int, n as int, c);
        }
    }
    let mut i: usize = 0;
    while i < k
        invariant
            i <= k,
            k <= m,
            k <= n,
            r@.len() == n * m,
            tiled(ranges@, n as int),
            cols.len() == n,
            tall(cols, m as int),
            panels(r@, m as int, n as int) == house(lanes, cols, i as int),
            taus@ == house_taus(lanes, cols, i as int),
        decreases k - i,
    {
        let ghost flat = r@;
        let ghost state = house(lanes, cols, i as int);
        proof {
            lemma_panel_bounds(m as int, n as int, i as int);
            lemma_house_shape(lanes, cols, m as int, i as int);
            assert(panels(flat, m as int, n as int)[i as int] == state[i as int]);
        }
        let (tau, tail) = own_reflector(r, m, i, i);
        proof {
            lemma_panel_replace(
                flat,
                m as int,
                n as int,
                i as int,
                cleared(state[i as int], i as int),
            );
        }
        take_turns(r, m, n, ranges, i, tail.as_slice(), tau, lanes);
        taus.push(tau);
        proof {
            assert(panels(r@, m as int, n as int) =~= house_step(lanes, state, i as int));
            assert(taus@ =~= house_taus(lanes, cols, i + 1));
        }
        i += 1;
    }
    taus
}

} // verus!
