//! Midpoint records: the rounded per-position mean of a cluster.
//!
//! Each output digit is the arithmetic mean of that position over all
//! members, rounded half up (equivalently, half away from zero, since all
//! digits are non-negative): `(2 * sum + count) / (2 * count)` in integers.

use vstd::prelude::*;
use crate::Number;
use crate::graph::uniform;

verus! {

/// The sum of position `i` over the first `m` members.
pub open spec fn col_sum(cs: Seq<Seq<u8>>, m: int, i: int) -> int
    decreases m,
{
    if m <= 0 {
        0int
    } else {
        col_sum(cs, m - 1, i) + cs[m - 1][i]
    }
}

/// The mean of position `i` over the whole cluster, rounded half up.
pub open spec fn mid_digit(cs: Seq<Seq<u8>>, i: int) -> int {
    let c = cs.len() as int;
    (2 * col_sum(cs, c, i) + c) / (2 * c)
}

proof fn lemma_col_sum_bound(cs: Seq<Seq<u8>>, m: int, i: int)
    requires
        0 <= m <= cs.len(),
        forall|m2: int| 0 <= m2 < cs.len() ==> i < (#[trigger] cs[m2]).len(),
        0 <= i,
    ensures
        0 <= col_sum(cs, m, i) <= 255 * m,
    decreases m,
{
    if m > 0 {
        lemma_col_sum_bound(cs, m - 1, i);
    }
}

/// The midpoint record of a non-empty cluster of equal-length records: one
/// digit per position, each the rounded mean of that position.
pub fn create_midpoint_element(cluster: &Vec<Number>) -> (r: Number)
    requires
        cluster@.len() >= 1,
        uniform(cluster.deep_view()),
    ensures
        r@.len() == cluster.deep_view()[0].len(),
        forall|i: int| 0 <= i < r@.len() ==> (#[trigger] r@[i]) as int == mid_digit(
            cluster.deep_view(),
            i,
        ),
{
    let ghost dv = cluster.deep_view();
    let count = cluster.len();
    proof {
        assert(cluster@[0].deep_view() == dv[0]);
    }
    let l = cluster[0].len();
    let mut sums: Vec<u128> = Vec::new();
    let mut i: usize = 0;
    while i < l
        invariant
            0 <= i <= l,
            sums@.len() == i,
            forall|i2: int| 0 <= i2 < i ==> (#[trigger] sums@[i2]) == 0,
        decreases l - i,
    {
        sums.push(0);
        i = i + 1;
    }
    let mut m: usize = 0;
    while m < count
        invariant
            dv == cluster.deep_view(),
            count == cluster@.len(),
            count >= 1,
            uniform(dv),
            l == dv[0].len(),
            sums@.len() == l,
            0 <= m <= count,
            forall|i2: int|
                0 <= i2 < l ==> (#[trigger] sums@[i2]) as int == col_sum(dv, m as int, i2),
            forall|i2: int| 0 <= i2 < l ==> (#[trigger] sums@[i2]) as int <= 255 * (m as int),
        decreases count - m,
    {
        proof {
            assert(cluster@[m as int].deep_view() == dv[m as int]);
            assert(dv[m as int].len() == dv[0].len());
        }
        let mut i2: usize = 0;
        while i2 < l
            invariant
                dv == cluster.deep_view(),
                count == cluster@.len(),
                l == dv[0].len(),
                sums@.len() == l,
                0 <= m < count,
                cluster@[m as int]@.len() == l,
                cluster@[m as int]@ == dv[m as int],
                0 <= i2 <= l,
                forall|i3: int|
                    i2 <= i3 < l ==> (#[trigger] sums@[i3]) as int == col_sum(dv, m as int, i3),
                forall|i3: int|
                    0 <= i3 < i2 ==> (#[trigger] sums@[i3]) as int == col_sum(dv, m as int + 1, i3),
                forall|i3: int|
                    i2 <= i3 < l ==> (#[trigger] sums@[i3]) as int <= 255 * (m as int),
                forall|i3: int|
                    0 <= i3 < i2 ==> (#[trigger] sums@[i3]) as int <= 255 * (m as int + 1),
            decreases l - i2,
        {
            let d = cluster[m][i2];
            let s = sums[i2];
            proof {
                assert(count as int <= usize::MAX as int);
            }
            sums.set(i2, s + (d as u128));
            i2 = i2 + 1;
        }
        m = m + 1;
    }
    let mut r: Number = Vec::new();
    let mut i4: usize = 0;
    while i4 < l
        invariant
            dv == cluster.deep_view(),
            count == cluster@.len(),
            count >= 1,
            l == dv[0].len(),
            sums@.len() == l,
            0 <= i4 <= l,
            forall|i2: int|
                0 <= i2 < l ==> (#[trigger] sums@[i2]) as int == col_sum(dv, count as int, i2),
            forall|i2: int|
                0 <= i2 < l ==> (#[trigger] sums@[i2]) as int <= 255 * (count as int),
            r@.len() == i4,
            forall|i2: int| 0 <= i2 < i4 ==> (#[trigger] r@[i2]) as int == mid_digit(dv, i2),
        decreases l - i4,
    {
        let s = sums[i4];
        let c = count as u128;
        let q = (2 * s + c) / (2 * c);
        proof {
            let sv = s as int;
            let cv = c as int;
            assert(sv <= 255 * cv);
            assert((2 * sv + cv) < 256 * (2 * cv)) by (nonlinear_arith)
                requires
                    sv <= 255 * cv,
                    cv >= 1,
            ;
            assert((2 * sv + cv) / (2 * cv) < 256) by (nonlinear_arith)
                requires
                    2 * sv + cv < 256 * (2 * cv),
                    cv >= 1,
                    sv >= 0,
            ;
            assert(q as int == mid_digit(dv, i4 as int));
        }
        r.push(q as u8);
        i4 = i4 + 1;
    }
    r
}

} // verus!
