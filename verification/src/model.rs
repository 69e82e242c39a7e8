//! The data the library works on: positions and the stops that carry them.
//!
//! Coordinates are fixed-point: a whole number of units of one ten-millionth
//! of a degree, which resolves about a centimetre on the ground and keeps
//! every longitude and latitude inside an `i32`. All arithmetic on them is
//! exact integer arithmetic on a flat plane.

use vstd::multiset::Multiset;
use vstd::prelude::*;
use vstd::seq_lib::*;

verus! {

/// How many coordinate units make one degree.
pub const UNITS_PER_DEGREE: i32 = 10_000_000;

/// A point of the plane: longitude first, latitude second.
#[derive(Clone, Copy, Debug, PartialEq, Eq, Structural)]
pub struct LngLat(pub i32, pub i32);

impl LngLat {
    /// The square of the straight-line distance between two points.
    ///
    /// Distances are only ever compared with each other, and squaring keeps
    /// their order, so the library works with the square and never rounds.
    pub open spec fn dist2(self, other: LngLat) -> int {
        (self.0 - other.0) * (self.0 - other.0) + (self.1 - other.1) * (self.1 - other.1)
    }
}

/// The largest value `dist2` can take: both coordinates a full `i32` range apart.
pub open spec fn dist2_limit() -> int {
    2 * 0xFFFF_FFFFint * 0xFFFF_FFFFint
}

/// `dist2` is never negative and never exceeds `dist2_limit()`.
pub proof fn lemma_dist2_bounds(a: LngLat, b: LngLat)
    ensures
        0 <= a.dist2(b) <= dist2_limit(),
{
    let dx = a.0 - b.0;
    let dy = a.1 - b.1;
    assert(0 <= dx * dx <= 0xFFFF_FFFF * 0xFFFF_FFFF) by (nonlinear_arith)
        requires
            -0xFFFF_FFFF <= dx <= 0xFFFF_FFFF,
    ;
    assert(0 <= dy * dy <= 0xFFFF_FFFF * 0xFFFF_FFFF) by (nonlinear_arith)
        requires
            -0xFFFF_FFFF <= dy <= 0xFFFF_FFFF,
    ;
}

/// Computes the squared distance between two points.
pub fn squared_distance(a: &LngLat, b: &LngLat) -> (d: u128)
    ensures
        d == a.dist2(*b),
{
    proof {
        lemma_dist2_bounds(*a, *b);
    }
    let dx: i64 = a.0 as i64 - b.0 as i64;
    let dy: i64 = a.1 as i64 - b.1 as i64;
    assert(0 <= dx * dx <= 0xFFFF_FFFF * 0xFFFF_FFFF) by (nonlinear_arith)
        requires
            -0xFFFF_FFFF <= dx <= 0xFFFF_FFFF,
    ;
    assert(0 <= dy * dy <= 0xFFFF_FFFF * 0xFFFF_FFFF) by (nonlinear_arith)
        requires
            -0xFFFF_FFFF <= dy <= 0xFFFF_FFFF,
    ;
    let sx: i128 = dx as i128 * dx as i128;
    let sy: i128 = dy as i128 * dy as i128;
    (sx + sy) as u128
}

/// A stop to be visited: two labels that the library carries along untouched,
/// a position, and the identifier of the group the stop currently belongs to.
///
/// Stops have no identity beyond their fields; equal stops stay separate.
#[derive(Debug, PartialEq, Eq)]
pub struct Item {
    pub name: String,
    pub addr: String,
    pub lng: i32,
    pub lat: i32,
    pub g: usize,
}

impl Clone for Item {
    fn clone(&self) -> (copy: Self)
        ensures
            copy == *self,
    {
        Item {
            name: self.name.clone(),
            addr: self.addr.clone(),
            lng: self.lng,
            lat: self.lat,
            g: self.g,
        }
    }
}

impl Item {
    /// Where the stop lies.
    pub open spec fn spec_position(&self) -> LngLat {
        LngLat(self.lng, self.lat)
    }

    /// Where the stop lies.
    #[verifier::when_used_as_spec(spec_position)]
    pub fn position(&self) -> (p: LngLat)
        ensures
            p == self.spec_position(),
    {
        LngLat(self.lng, self.lat)
    }

    /// The same stop, filed under group `g`.
    pub open spec fn in_group(self, g: usize) -> Item {
        Item { name: self.name, addr: self.addr, lng: self.lng, lat: self.lat, g }
    }

    /// A copy of the stop, filed under group `g`.
    pub fn copy_into_group(&self, g: usize) -> (copy: Item)
        ensures
            copy == self.in_group(g),
    {
        Item { name: self.name.clone(), addr: self.addr.clone(), lng: self.lng, lat: self.lat, g }
    }
}

/// The positions of a sequence of stops, in the same order.
pub open spec fn positions(items: Seq<Item>) -> Seq<LngLat> {
    Seq::new(items.len(), |i: int| items[i].position())
}

/// The squared distances from `from` to each of `pts`, in the same order.
pub open spec fn distances(from: LngLat, pts: Seq<LngLat>) -> Seq<int> {
    Seq::new(pts.len(), |i: int| from.dist2(pts[i]))
}

/// The stops with their group identifiers blanked out.
pub open spec fn blanked(items: Seq<Item>) -> Seq<Item> {
    Seq::new(items.len(), |i: int| items[i].in_group(0))
}

/// What a sequence of stops holds when neither order nor grouping counts:
/// each name, address and position as often as it occurs. Every stage hands
/// this on unchanged.
pub open spec fn stops(items: Seq<Item>) -> Multiset<Item> {
    blanked(items).to_multiset()
}

/// There are as many stops as there are entries.
pub proof fn lemma_stops_len(items: Seq<Item>)
    ensures
        stops(items).len() == items.len(),
{
    to_multiset_len(blanked(items));
}

/// Appending an entry adds its stop.
pub proof fn lemma_stops_push(items: Seq<Item>, it: Item)
    ensures
        stops(items.push(it)) == stops(items).insert(it.in_group(0)),
{
    assert(blanked(items.push(it)) =~= blanked(items).push(it.in_group(0)));
    to_multiset_build(blanked(items), it.in_group(0));
}

/// Joining two sequences joins their stops.
pub proof fn lemma_stops_add(a: Seq<Item>, b: Seq<Item>)
    ensures
        stops(a + b) == stops(a).add(stops(b)),
{
    assert(blanked(a + b) =~= blanked(a) + blanked(b));
    lemma_multiset_commutative(blanked(a), blanked(b));
}

/// Taking an entry out takes out its stop.
pub proof fn lemma_stops_remove(items: Seq<Item>, i: int)
    requires
        0 <= i < items.len(),
    ensures
        stops(items) == stops(items.remove(i)).insert(items[i].in_group(0)),
{
    broadcast use vstd::multiset::group_multiset_axioms;

    assert(blanked(items.remove(i)) =~= blanked(items).remove(i));
    to_multiset_remove(blanked(items), i);
    blanked(items).to_multiset_ensures();
    assert(blanked(items).contains(blanked(items)[i]));
    assert(stops(items) =~= stops(items.remove(i)).insert(items[i].in_group(0)));
}

/// Sequences that hold the same entries hold the same stops.
pub proof fn lemma_same_entries_same_stops(a: Seq<Item>, b: Seq<Item>)
    requires
        a.to_multiset() == b.to_multiset(),
    ensures
        stops(a) == stops(b),
    decreases a.len(),
{
    broadcast use vstd::multiset::group_multiset_axioms;

    to_multiset_len(a);
    to_multiset_len(b);
    if a.len() == 0 {
        assert(blanked(a) =~= blanked(b));
    } else {
        let x = a.last();
        a.to_multiset_ensures();
        b.to_multiset_ensures();
        assert(a.contains(x));
        assert(b.to_multiset().count(x) > 0);
        assert(b.contains(x));
        let j = choose|j: int| 0 <= j < b.len() && b[j] == x;
        to_multiset_remove(b, j);
        to_multiset_remove(a, a.len() - 1);
        assert(a.remove(a.len() - 1) =~= a.drop_last());
        lemma_same_entries_same_stops(a.drop_last(), b.remove(j));
        lemma_stops_remove(b, j);
        lemma_stops_push(a.drop_last(), x);
        assert(a.drop_last().push(x) =~= a);
    }
}

} // verus!
