//! The nearest-neighbour rule: an open tour through one group of stops.

use vstd::prelude::*;
use vstd::seq_lib::*;
use crate::model::{distances, positions, squared_distance, Item, LngLat};
use crate::select::{first_min, lemma_first_min};

verus! {

/// The index in `rest` of the stop nearest to `from`; of equally near stops,
/// the earliest.
pub open spec fn nearest_stop(from: LngLat, rest: Seq<Item>) -> int {
    first_min(distances(from, positions(rest)), rest.len() as int)
}

/// `nearest_stop` indexes into a non-empty `rest`.
pub proof fn lemma_nearest_stop_in_range(from: LngLat, rest: Seq<Item>)
    requires
        rest.len() > 0,
    ensures
        0 <= nearest_stop(from, rest) < rest.len(),
{
    lemma_first_min(distances(from, positions(rest)), rest.len() as int);
}

/// The tour that continues from position `from` through all of `rest`: the
/// nearest stop comes next, and the tour goes on from there through the
/// others, which keep their relative order as candidates.
pub open spec fn tour_from(from: LngLat, rest: Seq<Item>) -> Seq<Item>
    decreases rest.len(),
{
    if rest.len() == 0 {
        Seq::empty()
    } else {
        let n = nearest_stop(from, rest);
        proof {
            lemma_nearest_stop_in_range(from, rest);
        }
        seq![rest[n]] + tour_from(rest[n].position(), rest.remove(n))
    }
}

/// The nearest-neighbour tour of a group: it starts at the group's first
/// stop and always moves on to the nearest stop not yet visited.
pub open spec fn tour(stops: Seq<Item>) -> Seq<Item> {
    if stops.len() == 0 {
        stops
    } else {
        seq![stops[0]] + tour_from(stops[0].position(), stops.remove(0))
    }
}

/// Putting a stop in front of a sequence adds just that stop to its contents.
proof fn lemma_front_multiset(first: Item, tail: Seq<Item>)
    ensures
        (seq![first] + tail).to_multiset() == tail.to_multiset().insert(first),
{
    assert(seq![first] + tail =~= tail.insert(0, first));
    to_multiset_insert(tail, 0, first);
}

/// Taking a stop out of a sequence and putting it in front keeps the contents.
proof fn lemma_pulled_to_front(stops: Seq<Item>, n: int, tail: Seq<Item>)
    requires
        0 <= n < stops.len(),
        tail.to_multiset() == stops.remove(n).to_multiset(),
    ensures
        (seq![stops[n]] + tail).to_multiset() == stops.to_multiset(),
{
    broadcast use vstd::multiset::group_multiset_axioms;

    lemma_front_multiset(stops[n], tail);
    to_multiset_remove(stops, n);
    stops.to_multiset_ensures();
    assert(stops.contains(stops[n]));
    assert(stops.to_multiset().count(stops[n]) > 0);
    assert(stops.to_multiset().remove(stops[n]).insert(stops[n]) =~= stops.to_multiset());
}

/// A tour from anywhere visits exactly the stops it was given.
pub proof fn lemma_tour_from_permutes(from: LngLat, rest: Seq<Item>)
    ensures
        tour_from(from, rest).to_multiset() == rest.to_multiset(),
        tour_from(from, rest).len() == rest.len(),
    decreases rest.len(),
{
    if rest.len() > 0 {
        let n = nearest_stop(from, rest);
        lemma_nearest_stop_in_range(from, rest);
        let tail = tour_from(rest[n].position(), rest.remove(n));
        lemma_tour_from_permutes(rest[n].position(), rest.remove(n));
        lemma_pulled_to_front(rest, n, tail);
    } else {
        assert(tour_from(from, rest) =~= rest);
    }
}

/// A tour is a rearrangement of its stops: none is added, dropped or
/// repeated, and none is altered.
pub proof fn lemma_tour_permutes(stops: Seq<Item>)
    ensures
        tour(stops).to_multiset() == stops.to_multiset(),
        tour(stops).len() == stops.len(),
{
    if stops.len() > 0 {
        let tail = tour_from(stops[0].position(), stops.remove(0));
        lemma_tour_from_permutes(stops[0].position(), stops.remove(0));
        lemma_pulled_to_front(stops, 0, tail);
    }
}

/// A tour never leaves the group: if every stop carries group `g`, so does
/// every stop of the tour.
pub proof fn lemma_tour_keeps_group(stops: Seq<Item>, g: usize)
    requires
        forall|i: int| 0 <= i < stops.len() ==> (#[trigger] stops[i]).g == g,
    ensures
        forall|i: int| 0 <= i < tour(stops).len() ==> (#[trigger] tour(stops)[i]).g == g,
{
    lemma_tour_permutes(stops);
    assert forall|i: int| 0 <= i < tour(stops).len() implies (#[trigger] tour(stops)[i]).g
        == g by {
        let t = tour(stops);
        t.to_multiset_ensures();
        stops.to_multiset_ensures();
        assert(t.contains(t[i]));
        assert(stops.to_multiset().count(t[i]) > 0);
        assert(stops.contains(t[i]));
        let j = choose|j: int| 0 <= j < stops.len() && stops[j] == t[i];
        assert(stops[j].g == g);
    }
}

/// Finds the stop of `rest` nearest to `from`.
fn find_nearest_stop(from: &LngLat, rest: &Vec<Item>) -> (n: usize)
    requires
        rest.len() > 0,
    ensures
        n == nearest_stop(*from, rest@),
{
    let ghost keys = distances(*from, positions(rest@));
    let mut best: usize = 0;
    let mut best_dist: u128 = squared_distance(from, &rest[0].position());
    let mut i: usize = 1;
    while i < rest.len()
        invariant
            1 <= i <= rest.len(),
            keys == distances(*from, positions(rest@)),
            best == first_min(keys, i as int),
            0 <= best < i,
            best_dist == keys[best as int],
        decreases rest.len() - i,
    {
        let d = squared_distance(from, &rest[i].position());
        if d < best_dist {
            best = i;
            best_dist = d;
        }
        i += 1;
    }
    best
}

/// Orders one group of stops by the nearest-neighbour rule.
///
/// The route starts at the first stop given. From each stop it goes to the
/// nearest one not yet visited; where several are equally near, to the one
/// that came earliest in `g_items`. An empty group gives an empty route.
pub fn tsp_nearest_neighbor(g_items: Vec<Item>) -> (route: Vec<Item>)
    ensures
        route@ == tour(g_items@),
        route.len() == g_items.len(),
        route@.to_multiset() == g_items@.to_multiset(),
        g_items.len() > 0 ==> route[0] == g_items[0],
{
    proof {
        lemma_tour_permutes(g_items@);
    }
    let mut rest = g_items;
    let mut route: Vec<Item> = Vec::new();
    if rest.len() == 0 {
        return route;
    }
    let first = rest.remove(0);
    let mut here = first.position();
    route.push(first);
    while rest.len() > 0
        invariant
            tour(g_items@) == route@ + tour_from(here, rest@),
        decreases rest.len(),
    {
        let n = find_nearest_stop(&here, &rest);
        proof {
            lemma_nearest_stop_in_range(here, rest@);
        }
        let ghost before = rest@;
        let ghost from = here;
        let next = rest.remove(n);
        here = next.position();
        assert(route@.push(next) + tour_from(here, rest@) =~= route@ + tour_from(from, before));
        route.push(next);
    }
    route
}

} // verus!
