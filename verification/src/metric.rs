//! Manhattan distance between equal-length digit sequences.

use vstd::prelude::*;
use crate::Number;

verus! {

/// `|x - y|` over the integers.
pub open spec fn abs_diff(x: int, y: int) -> int {
    if x >= y {
        x - y
    } else {
        y - x
    }
}

/// Sum of `|a[j] - b[j]|` over the first `i` positions.
pub open spec fn dist_upto(a: Seq<u8>, b: Seq<u8>, i: int) -> int
    decreases i,
{
    if i <= 0 {
        0
    } else {
        dist_upto(a, b, i - 1) + abs_diff(a[i - 1] as int, b[i - 1] as int)
    }
}

/// Manhattan distance of two equal-length digit sequences.
pub open spec fn dist_spec(a: Seq<u8>, b: Seq<u8>) -> int {
    dist_upto(a, b, a.len() as int)
}

/// Metric symmetry: `distance(a, b) == distance(b, a)`.
pub proof fn lemma_distance_symmetric(a: Seq<u8>, b: Seq<u8>)
    requires
        a.len() == b.len(),
    ensures
        dist_spec(a, b) == dist_spec(b, a),
{
    lemma_dist_upto_symmetric(a, b, a.len() as int);
}

proof fn lemma_dist_upto_symmetric(a: Seq<u8>, b: Seq<u8>, i: int)
    ensures
        dist_upto(a, b, i) == dist_upto(b, a, i),
    decreases i,
{
    if i > 0 {
        lemma_dist_upto_symmetric(a, b, i - 1);
    }
}

/// Metric reflexivity: `distance(a, a) == 0`.
pub proof fn lemma_distance_self(a: Seq<u8>)
    ensures
        dist_spec(a, a) == 0,
{
    lemma_dist_upto_self(a, a.len() as int);
}

proof fn lemma_dist_upto_self(a: Seq<u8>, i: int)
    ensures
        dist_upto(a, a, i) == 0,
    decreases i,
{
    if i > 0 {
        lemma_dist_upto_self(a, i - 1);
    }
}

/// The triangle inequality for records of equal length:
/// `distance(a, c) <= distance(a, b) + distance(b, c)`.
pub proof fn lemma_distance_triangle(a: Seq<u8>, b: Seq<u8>, c: Seq<u8>)
    requires
        a.len() == b.len(),
        b.len() == c.len(),
    ensures
        dist_spec(a, c) <= dist_spec(a, b) + dist_spec(b, c),
{
    lemma_dist_upto_triangle(a, b, c, a.len() as int);
}

proof fn lemma_dist_upto_triangle(a: Seq<u8>, b: Seq<u8>, c: Seq<u8>, i: int)
    ensures
        dist_upto(a, c, i) <= dist_upto(a, b, i) + dist_upto(b, c, i),
    decreases i,
{
    if i > 0 {
        lemma_dist_upto_triangle(a, b, c, i - 1);
    }
}

/// Manhattan distance of two equal-length records, free of overflow: the sum
/// is at most `255 * len`, which fits a `u128`.
pub fn distance(a: &Number, b: &Number) -> (d: u128)
    requires
        a@.len() == b@.len(),
    ensures
        d as int == dist_spec(a@, b@),
{
    let n = a.len();
    let mut acc: u128 = 0;
    let mut i: usize = 0;
    while i < n
        invariant
            n == a@.len() == b@.len(),
            0 <= i <= n,
            acc as int == dist_upto(a@, b@, i as int),
            acc as int <= 255 * (i as int),
        decreases n - i,
    {
        let x = a[i];
        let y = b[i];
        let step: u128 = if x >= y {
            (x - y) as u128
        } else {
            (y - x) as u128
        };
        acc = acc + step;
        i = i + 1;
    }
    acc
}

} // verus!
