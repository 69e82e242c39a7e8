//! Centroids: the mean position of a set of points.
//!
//! A mean is rounded down to a whole coordinate unit in each direction, so
//! that it is itself a position.

use vstd::arithmetic::div_mod::{lemma_div_is_ordered, lemma_fundamental_div_mod_converse};
use vstd::prelude::*;
use crate::model::{positions, Item, LngLat};

verus! {

/// The sum of the longitudes of `pts`.
pub open spec fn sum_lng(pts: Seq<LngLat>) -> int
    decreases pts.len(),
{
    if pts.len() == 0 {
        0
    } else {
        sum_lng(pts.drop_last()) + pts.last().0
    }
}

/// The sum of the latitudes of `pts`.
pub open spec fn sum_lat(pts: Seq<LngLat>) -> int
    decreases pts.len(),
{
    if pts.len() == 0 {
        0
    } else {
        sum_lat(pts.drop_last()) + pts.last().1
    }
}

/// The centroid of `pts`: in each direction the mean of the coordinates,
/// rounded down. Meaningful for a non-empty sequence only.
pub open spec fn mean(pts: Seq<LngLat>) -> LngLat {
    LngLat(
        (sum_lng(pts) / (pts.len() as int)) as i32,
        (sum_lat(pts) / (pts.len() as int)) as i32,
    )
}

/// A sum of coordinates lies within as many times the range of one.
pub proof fn lemma_sum_bounds(pts: Seq<LngLat>)
    ensures
        pts.len() * i32::MIN <= sum_lng(pts) <= pts.len() * i32::MAX,
        pts.len() * i32::MIN <= sum_lat(pts) <= pts.len() * i32::MAX,
    decreases pts.len(),
{
    if pts.len() > 0 {
        lemma_sum_bounds(pts.drop_last());
        let n = pts.len() as int;
        assert((n - 1) * i32::MIN + i32::MIN == n * i32::MIN) by (nonlinear_arith);
        assert((n - 1) * i32::MAX + i32::MAX == n * i32::MAX) by (nonlinear_arith);
    }
}

/// Appending a point adds its coordinates to the sums.
pub proof fn lemma_sum_push(pts: Seq<LngLat>, p: LngLat)
    ensures
        sum_lng(pts.push(p)) == sum_lng(pts) + p.0,
        sum_lat(pts.push(p)) == sum_lat(pts) + p.1,
{
    assert(pts.push(p).drop_last() =~= pts);
}

/// A mean of coordinates is a coordinate: rounded down, it stays in range.
pub proof fn lemma_mean_in_range(sum: int, n: int)
    requires
        n > 0,
        n * i32::MIN <= sum <= n * i32::MAX,
    ensures
        i32::MIN <= sum / n <= i32::MAX,
{
    lemma_div_is_ordered(n * i32::MIN, sum, n);
    lemma_div_is_ordered(sum, n * i32::MAX, n);
    lemma_fundamental_div_mod_converse(n * i32::MIN, n, i32::MIN as int, 0);
    lemma_fundamental_div_mod_converse(n * i32::MAX, n, i32::MAX as int, 0);
}

/// Divides a sum of `n` coordinates by `n`, rounding down.
pub fn floor_mean(sum: i128, n: usize) -> (q: i32)
    requires
        n > 0,
        n * i32::MIN <= sum <= n * i32::MAX,
    ensures
        q == sum as int / n as int,
{
    proof {
        lemma_mean_in_range(sum as int, n as int);
        assert(n * i32::MAX <= 0x1_0000_0000_0000_0000 * 0x8000_0000) by (nonlinear_arith)
            requires
                0 < n <= 0x1_0000_0000_0000_0000,
        ;
        assert(n * i32::MIN >= -0x1_0000_0000_0000_0000 * 0x8000_0000) by (nonlinear_arith)
            requires
                0 < n <= 0x1_0000_0000_0000_0000,
        ;
    }
    if sum >= 0 {
        let q: u128 = (sum as u128) / (n as u128);
        q as i32
    } else {
        let m: u128 = (-sum) as u128;
        let up: u128 = (m + (n as u128 - 1)) / (n as u128);
        proof {
            let d = n as int;
            let t = m + d - 1;
            let r = t % d;
            assert(t == d * (t / d) + r && 0 <= r < d) by {
                vstd::arithmetic::div_mod::lemma_fundamental_div_mod(t, d);
                vstd::arithmetic::div_mod::lemma_mod_bound(t, d);
            }
            let back = d - 1 - r;
            assert(sum as int == (-(up as int)) * d + back) by (nonlinear_arith)
                requires
                    t == d * (t / d) + r,
                    up as int == t / d,
                    t == m + d - 1,
                    sum as int == -(m as int),
                    back == d - 1 - r,
            ;
            lemma_fundamental_div_mod_converse(sum as int, d, -(up as int), back);
        }
        (-(up as i128)) as i32
    }
}

/// Computes the centroid of the positions of `members`.
pub fn centroid_of(members: &Vec<Item>) -> (c: LngLat)
    requires
        members.len() > 0,
    ensures
        c == mean(positions(members@)),
{
    let ghost pts = positions(members@);
    let mut lng: i128 = 0;
    let mut lat: i128 = 0;
    let mut i: usize = 0;
    assert(pts.take(0) =~= Seq::<LngLat>::empty());
    while i < members.len()
        invariant
            0 <= i <= members.len(),
            pts == positions(members@),
            lng == sum_lng(pts.take(i as int)),
            lat == sum_lat(pts.take(i as int)),
        decreases members.len() - i,
    {
        proof {
            lemma_sum_bounds(pts.take(i as int));
            lemma_sum_push(pts.take(i as int), pts[i as int]);
            assert(pts.take(i as int).push(pts[i as int]) =~= pts.take(i + 1));
            lemma_sum_bounds(pts.take(i + 1));
            lemma_product_bounds(i as int + 1);
        }
        lng = lng + members[i].lng as i128;
        lat = lat + members[i].lat as i128;
        i += 1;
    }
    proof {
        assert(pts.take(members.len() as int) =~= pts);
        lemma_sum_bounds(pts);
    }
    LngLat(floor_mean(lng, members.len()), floor_mean(lat, members.len()))
}

/// As many coordinates as a `usize` can count sum to a value that an
/// `i128` holds with room to spare.
pub proof fn lemma_product_bounds(n: int)
    requires
        0 <= n <= usize::MAX + 1,
    ensures
        -0x8000_0000_0000_0000_0000_0000 <= n * i32::MIN,
        n * i32::MAX <= 0x8000_0000_0000_0000_0000_0000,
{
    assert(n * i32::MAX <= 0x1_0000_0000_0000_0000 * 0x8000_0000) by (nonlinear_arith)
        requires
            0 <= n <= 0x1_0000_0000_0000_0000,
    ;
    assert(n * i32::MIN >= -0x1_0000_0000_0000_0000 * 0x8000_0000) by (nonlinear_arith)
        requires
            0 <= n <= 0x1_0000_0000_0000_0000,
    ;
}

} // verus!
