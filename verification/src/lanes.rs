//! Vector kernels, in blocks of lanes.
//!
//! A dot product is accumulated in a fixed number of lanes (eight for single width, four for
//! double), one fused multiply-add per lane and block; the lanes are then added up in a fixed
//! tree and the entries left over are added one by one. The order is part of the contract: it
//! decides the rounding.

use crate::scalar::Scalar;
#[allow(unused_imports)]
use crate::scalar::Number;
use vstd::prelude::*;

verus! {

/// The number of single-width lanes.
pub const LANES: usize = 8;

/// The number of double-width lanes.
pub const WIDE_LANES: usize = 4;

/// What lane `lane` of `width` holds after `blocks` blocks of the dot product of `a` and `b`.
pub open spec fn lane_sum<N: Number>(
    a: Seq<N>,
    b: Seq<N>,
    width: int,
    lane: int,
    blocks: nat,
) -> N
    decreases blocks,
{
    if blocks == 0 {
        N::nought()
    } else {
        let x = width * (blocks - 1) + lane;
        a[x].fused(b[x], lane_sum(a, b, width, lane, (blocks - 1) as nat))
    }
}

/// `start`, then the products of the entries `from..to` added one by one.
pub open spec fn running_dot<N: Number>(
    start: N,
    a: Seq<N>,
    b: Seq<N>,
    from: int,
    to: int,
) -> N
    decreases to - from,
{
    if to <= from {
        start
    } else {
        running_dot(start, a, b, from, to - 1).plus(a[to - 1].times(b[to - 1]))
    }
}

/// The sum of eight lanes: `((l0 + l4) + (l2 + l6)) + ((l1 + l5) + (l3 + l7))`.
pub open spec fn tree8<N: Number>(l: Seq<N>) -> N {
    l[0].plus(l[4]).plus(l[2].plus(l[6])).plus(l[1].plus(l[5]).plus(l[3].plus(l[7])))
}

/// The sum of four lanes: `(l0 + l2) + (l1 + l3)`.
pub open spec fn tree4<N: Number>(l: Seq<N>) -> N {
    l[0].plus(l[2]).plus(l[1].plus(l[3]))
}

/// All lanes after `blocks` blocks.
pub open spec fn lane_sums<N: Number>(a: Seq<N>, b: Seq<N>, width: int, blocks: nat) -> Seq<N> {
    Seq::new(width as nat, |lane: int| lane_sum(a, b, width, lane, blocks))
}

/// The dot product of `a` and `b` in eight lanes.
pub open spec fn lane_dot<N: Number>(a: Seq<N>, b: Seq<N>) -> N {
    let blocks = (a.len() / 8) as nat;
    running_dot(tree8(lane_sums(a, b, 8, blocks)), a, b, 8 * blocks as int, a.len() as int)
}

/// The dot product of `a` and `b` in four lanes.
pub open spec fn wide_lane_dot<N: Number>(a: Seq<N>, b: Seq<N>) -> N {
    let blocks = (a.len() / 4) as nat;
    running_dot(tree4(lane_sums(a, b, 4, blocks)), a, b, 4 * blocks as int, a.len() as int)
}

/// `a - f * b`, fused in the whole blocks of eight.
pub open spec fn lane_sub_scaled<N: Number>(a: Seq<N>, b: Seq<N>, f: N) -> Seq<N> {
    let whole = 8 * (a.len() / 8) as int;
    Seq::new(
        a.len(),
        |i: int|
            if i < whole {
                f.negated().fused(b[i], a[i])
            } else {
                a[i].minus(f.times(b[i]))
            },
    )
}

/// The first vector of the pair `a`, `b` rotated by `c`, `s`; fused in the first `whole` entries.
pub open spec fn rotated_first<N: Number>(a: Seq<N>, b: Seq<N>, c: N, s: N, whole: int) -> Seq<N> {
    Seq::new(
        a.len(),
        |i: int|
            if i < whole {
                s.fused(b[i], c.times(a[i]))
            } else {
                c.times(a[i]).plus(s.times(b[i]))
            },
    )
}

/// The second vector of the pair `a`, `b` rotated by `c`, `s`; fused in the first `whole` entries.
pub open spec fn rotated_second<N: Number>(
    a: Seq<N>,
    b: Seq<N>,
    c: N,
    s: N,
    whole: int,
) -> Seq<N> {
    Seq::new(
        a.len(),
        |i: int|
            if i < whole {
                s.negated().fused(a[i], c.times(b[i]))
            } else {
                c.times(b[i]).minus(s.times(a[i]))
            },
    )
}

/// The entries of a rotation of length `n` that are fused: whole blocks of four with lanes, none
/// without.
pub open spec fn wide_whole(lanes: bool, n: int) -> int {
    if lanes {
        4 * (n / 4)
    } else {
        0
    }
}

/// Adds up eight lanes.
pub fn hsum<T: Scalar>(v: &[T; 8]) -> (r: T)
    ensures
        r == tree8(v@),
{
    let s0 = v[0].add(v[4]);
    let s1 = v[1].add(v[5]);
    let s2 = v[2].add(v[6]);
    let s3 = v[3].add(v[7]);
    let t0 = s0.add(s2);
    let t1 = s1.add(s3);
    t0.add(t1)
}

/// Adds up four lanes.
pub fn hsum_wide<T: Scalar>(v: &[T; 4]) -> (r: T)
    ensures
        r == tree4(v@),
{
    let s0 = v[0].add(v[2]);
    let s1 = v[1].add(v[3]);
    s0.add(s1)
}

/// Dot product of two vectors of equal length, in eight lanes.
pub fn dot_pair<T: Scalar>(a: &[T], b: &[T]) -> (r: T)
    requires
        a.len() == b.len(),
    ensures
        r == lane_dot(a@, b@),
{
    let n = a.len();
    let mut acc: [T; 8] = [T::zero();8];
    let mut i: usize = 0;
    let ghost mut blocks: nat = 0;
    assert(acc@ =~= lane_sums(a@, b@, 8, 0));
    while n - i >= LANES
        invariant
            i <= n,
            n == a.len(),
            n == b.len(),
            i == 8 * blocks,
            acc@ == lane_sums(a@, b@, 8, blocks),
        decreases n - i,
    {
        let ghost before = acc@;
        let mut lane: usize = 0;
        while lane < LANES
            invariant
                lane <= 8,
                i + 8 <= n,
                n == a.len(),
                n == b.len(),
                i == 8 * blocks,
                before == lane_sums(a@, b@, 8, blocks),
                forall|l: int|
                    0 <= l < lane ==> #[trigger] acc@[l] == lane_sum(
                        a@,
                        b@,
                        8,
                        l,
                        (blocks + 1) as nat,
                    ),
                forall|l: int| lane <= l < 8 ==> #[trigger] acc@[l] == before[l],
            decreases 8 - lane,
        {
            assert(before[lane as int] == lane_sum(a@, b@, 8, lane as int, blocks));
            acc[lane] = a[i + lane].mul_add(b[i + lane], acc[lane]);
            lane += 1;
        }
        i += LANES;
        proof {
            blocks = (blocks + 1) as nat;
        }
        assert(acc@ =~= lane_sums(a@, b@, 8, blocks));
    }
    assert(blocks == a@.len() / 8);
    let mut s = hsum(&acc);
    let ghost start = s;
    let ghost from = i as int;
    while i < n
        invariant
            from <= i <= n,
            n == a.len(),
            n == b.len(),
            s == running_dot(start, a@, b@, from, i as int),
        decreases n - i,
    {
        s = s.add(a[i].mul(b[i]));
        i += 1;
    }
    s
}

/// `a -= f * b` for two vectors of equal length.
pub fn apply_pair<T: Scalar>(a: &mut [T], b: &[T], f: T)
    requires
        old(a)@.len() == b@.len(),
    ensures
        final(a)@ == lane_sub_scaled(old(a)@, b@, f),
{
    let n = b.len();
    let ghost a0 = a@;
    let nf = f.neg();
    let mut i: usize = 0;
    let whole = n / LANES * LANES;
    while i < whole
        invariant
            i <= whole <= n,
            whole == 8 * (n / 8),
            n == b.len(),
            a@.len() == n,
            a0.len() == n,
            nf == f.negated(),
            forall|x: int| 0 <= x < i ==> #[trigger] a@[x] == nf.fused(b@[x], a0[x]),
            forall|x: int| i <= x < n ==> #[trigger] a@[x] == a0[x],
        decreases whole - i,
    {
        a[i] = nf.mul_add(b[i], a[i]);
        i += 1;
    }
    while i < n
        invariant
            whole <= i <= n,
            whole == 8 * (n / 8),
            n == b.len(),
            a@.len() == n,
            a0.len() == n,
            nf == f.negated(),
            forall|x: int| 0 <= x < whole ==> #[trigger] a@[x] == nf.fused(b@[x], a0[x]),
            forall|x: int|
                whole <= x < i ==> #[trigger] a@[x] == a0[x].minus(f.times(b@[x])),
            forall|x: int| i <= x < n ==> #[trigger] a@[x] == a0[x],
        decreases n - i,
    {
        a[i] = a[i].sub(f.mul(b[i]));
        i += 1;
    }
    assert(a@ =~= lane_sub_scaled(a0, b@, f));
}

/// The dot product of double-width vectors: in four lanes, or one by one.
pub open spec fn wide_dot<N: Number>(lanes: bool, a: Seq<N>, b: Seq<N>) -> N {
    if lanes {
        wide_lane_dot(a, b)
    } else {
        running_dot(N::nought(), a, b, 0, a.len() as int)
    }
}

/// `|a|^2`, `|b|^2` and `a . b` of two vectors of equal length in one pass: in four lanes with
/// `lanes`, one by one without.
pub fn dot3<T: Scalar>(a: &[T], b: &[T], lanes: bool) -> (r: (T, T, T))
    requires
        a.len() == b.len(),
    ensures
        r.0 == wide_dot(lanes, a@, a@),
        r.1 == wide_dot(lanes, b@, b@),
        r.2 == wide_dot(lanes, a@, b@),
{
    let n = a.len();
    let mut i: usize = 0;
    let mut s1 = T::zero();
    let mut s2 = T::zero();
    let mut s3 = T::zero();
    if lanes {
        let mut aa: [T; 4] = [T::zero();4];
        let mut bb: [T; 4] = [T::zero();4];
        let mut ab: [T; 4] = [T::zero();4];
        let ghost mut blocks: nat = 0;
        assert(aa@ =~= lane_sums(a@, a@, 4, 0));
        assert(bb@ =~= lane_sums(b@, b@, 4, 0));
        assert(ab@ =~= lane_sums(a@, b@, 4, 0));
        while n - i >= WIDE_LANES
            invariant
                i <= n,
                n == a.len(),
                n == b.len(),
                i == 4 * blocks,
                aa@ == lane_sums(a@, a@, 4, blocks),
                bb@ == lane_sums(b@, b@, 4, blocks),
                ab@ == lane_sums(a@, b@, 4, blocks),
            decreases n - i,
        {
            let ghost (aa0, bb0, ab0) = (aa@, bb@, ab@);
            let mut lane: usize = 0;
            while lane < WIDE_LANES
                invariant
                    lane <= 4,
                    i + 4 <= n,
                    n == a.len(),
                    n == b.len(),
                    i == 4 * blocks,
                    aa0 == lane_sums(a@, a@, 4, blocks),
                    bb0 == lane_sums(b@, b@, 4, blocks),
                    ab0 == lane_sums(a@, b@, 4, blocks),
                    forall|l: int|
                        0 <= l < lane ==> #[trigger] aa@[l] == lane_sum(
                            a@,
                            a@,
                            4,
                            l,
                            (blocks + 1) as nat,
                        ),
                    forall|l: int|
                        0 <= l < lane ==> #[trigger] bb@[l] == lane_sum(
                            b@,
                            b@,
                            4,
                            l,
                            (blocks + 1) as nat,
                        ),
                    forall|l: int|
                        0 <= l < lane ==> #[trigger] ab@[l] == lane_sum(
                            a@,
                            b@,
                            4,
                            l,
                            (blocks + 1) as nat,
                        ),
                    forall|l: int| lane <= l < 4 ==> #[trigger] aa@[l] == aa0[l],
                    forall|l: int| lane <= l < 4 ==> #[trigger] bb@[l] == bb0[l],
                    forall|l: int| lane <= l < 4 ==> #[trigger] ab@[l] == ab0[l],
                decreases 4 - lane,
            {
                assert(aa0[lane as int] == lane_sum(a@, a@, 4, lane as int, blocks));
                assert(bb0[lane as int] == lane_sum(b@, b@, 4, lane as int, blocks));
                assert(ab0[lane as int] == lane_sum(a@, b@, 4, lane as int, blocks));
                let av = a[i + lane];
                let bv = b[i + lane];
                aa[lane] = av.mul_add(av, aa[lane]);
                bb[lane] = bv.mul_add(bv, bb[lane]);
                ab[lane] = av.mul_add(bv, ab[lane]);
                lane += 1;
            }
            i += WIDE_LANES;
            proof {
                blocks = (blocks + 1) as nat;
            }
            assert(aa@ =~= lane_sums(a@, a@, 4, blocks));
            assert(bb@ =~= lane_sums(b@, b@, 4, blocks));
            assert(ab@ =~= lane_sums(a@, b@, 4, blocks));
        }
        assert(blocks == a@.len() / 4);
        s1 = hsum_wide(&aa);
        s2 = hsum_wide(&bb);
        s3 = hsum_wide(&ab);
    }
    let ghost (t1, t2, t3) = (s1, s2, s3);
    let ghost from = i as int;
    while i < n
        invariant
            from <= i <= n,
            n == a.len(),
            n == b.len(),
            s1 == running_dot(t1, a@, a@, from, i as int),
            s2 == running_dot(t2, b@, b@, from, i as int),
            s3 == running_dot(t3, a@, b@, from, i as int),
        decreases n - i,
    {
        let av = a[i];
        let bv = b[i];
        s1 = s1.add(av.mul(av));
        s2 = s2.add(bv.mul(bv));
        s3 = s3.add(av.mul(bv));
        i += 1;
    }
    (s1, s2, s3)
}

/// Rotates the pair `a`, `b` in place: `a' = c a + s b`, `b' = c b - s a`.
pub fn rotate2<T: Scalar>(a: &mut [T], b: &mut [T], c: T, s: T, lanes: bool)
    requires
        old(a)@.len() == old(b)@.len(),
    ensures
        final(a)@ == rotated_first(
            old(a)@,
            old(b)@,
            c,
            s,
            wide_whole(lanes, old(a)@.len() as int),
        ),
        final(b)@ == rotated_second(
            old(a)@,
            old(b)@,
            c,
            s,
            wide_whole(lanes, old(a)@.len() as int),
        ),
{
    let ghost a0 = a@;
    let ghost b0 = b@;
    let n = a.len();
    let ns = s.neg();
    let whole: usize = if lanes {
        n / WIDE_LANES * WIDE_LANES
    } else {
        0
    };
    let mut i: usize = 0;
    while i < n
        invariant
            i <= n,
            whole == wide_whole(lanes, n as int),
            a@.len() == n,
            b@.len() == n,
            a0.len() == n,
            b0.len() == n,
            ns == s.negated(),
            forall|x: int|
                0 <= x < i ==> #[trigger] a@[x] == rotated_first(a0, b0, c, s, whole as int)[x],
            forall|x: int|
                0 <= x < i ==> #[trigger] b@[x] == rotated_second(a0, b0, c, s, whole as int)[x],
            forall|x: int| i <= x < n ==> #[trigger] a@[x] == a0[x],
            forall|x: int| i <= x < n ==> #[trigger] b@[x] == b0[x],
        decreases n - i,
    {
        let av = a[i];
        let bv = b[i];
        if i < whole {
            a[i] = s.mul_add(bv, c.mul(av));
            b[i] = ns.mul_add(av, c.mul(bv));
        } else {
            a[i] = c.mul(av).add(s.mul(bv));
            b[i] = c.mul(bv).sub(s.mul(av));
        }
        i += 1;
    }
    assert(a@ =~= rotated_first(a0, b0, c, s, whole as int));
    assert(b@ =~= rotated_second(a0, b0, c, s, whole as int));
}

} // verus!
