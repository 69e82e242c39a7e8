//! The rebalancer: groups above capacity give stops away to groups with room.
//!
//! Groups are handled in ascending order of identifier. Every group has a
//! centroid, computed once from the stops it holds when the stage starts.
//! A group above capacity ranks its stops by distance from its own centroid,
//! farthest first, and a selection policy names the ones that leave. Each
//! leaving stop goes to the group whose centroid is nearest to it among the
//! other groups that are below capacity at that moment. When no group has
//! room the stage stops where it is; what has moved stays moved.

use std::collections::HashMap;
use vstd::prelude::*;
use crate::centroid::{centroid_of, mean};
use crate::grouping::{
    ascending_by_group, carries, concat, flatten, grouping, groups_of, members_of, partition,
    Bucket, Group,
};
use crate::guarantees::{in_use, lemma_redistributed};
use crate::model::{distances, lemma_dist2_bounds, positions, squared_distance, stops, Item, LngLat};
use crate::ranking::{key_values, ranking, stable_order};
use crate::select::first_open_min;

verus! {

/// How a run of the rebalancer ended.
#[derive(Clone, Copy, Debug, PartialEq, Eq, Structural)]
pub enum Status {
    /// No group was above capacity; nothing was touched.
    NotNeeded,
    /// Every group above capacity was brought down to it.
    Completed,
    /// A stop had to leave and no group had room for it.
    OverCapacity,
}

impl Status {
    /// The words that report the status.
    pub open spec fn message(self) -> Seq<char> {
        match self {
            Status::NotNeeded => "no redistribution needed"@,
            Status::Completed => "redistribution completed"@,
            Status::OverCapacity => "some groups remain over capacity"@,
        }
    }

    /// Puts the status into words.
    pub fn text(&self) -> (words: String)
        ensures
            words@ == self.message(),
    {
        match self {
            Status::NotNeeded => "no redistribution needed".to_owned(),
            Status::Completed => "redistribution completed".to_owned(),
            Status::OverCapacity => "some groups remain over capacity".to_owned(),
        }
    }
}

/// Different statuses are reported in different words.
pub proof fn lemma_messages_differ(a: Status, b: Status)
    ensures
        a.message() == b.message() <==> a == b,
{
    reveal_strlit("no redistribution needed");
    reveal_strlit("redistribution completed");
    reveal_strlit("some groups remain over capacity");
    if a != b && a.message() == b.message() {
        assert(a.message().len() == b.message().len());
        assert(a.message()[0] == b.message()[0]);
    }
}

/// Whether no group of `items` holds more than `maximum` stops.
pub open spec fn within_capacity(items: Seq<Item>, maximum: usize) -> bool {
    forall|g: usize| #[trigger] members_of(items, g).len() <= maximum
}

/// The centroid of every group, from the stops it holds.
pub open spec fn centroids(groups: Seq<Group>) -> Seq<LngLat> {
    Seq::new(groups.len(), |i: int| mean(positions(groups[i].members)))
}

/// The keys that rank stops by distance from `center`, farthest first.
pub open spec fn remoteness(members: Seq<Item>, center: LngLat) -> Seq<int> {
    Seq::new(members.len(), |p: int| -members[p].position().dist2(center))
}

/// The indices of `members` ranked by distance from `center`, farthest
/// first; stops equally far keep their order.
pub open spec fn farthest_first(members: Seq<Item>, center: LngLat) -> Seq<usize> {
    ranking(remoteness(members, center))
}

/// The selection policy: of a group's stops ranked farthest first, the
/// first `maximum` stay and all behind them leave, in ranking order.
///
/// So it is the stops nearest the group's centre that leave. Everything
/// around the policy takes the list it returns as it comes, and another
/// policy can stand in its place.
pub open spec fn leaving(order: Seq<usize>, maximum: usize) -> Seq<usize> {
    if maximum <= order.len() {
        order.skip(maximum as int)
    } else {
        Seq::empty()
    }
}

/// Which groups can take a stop from group `source`: every other group that
/// is below capacity.
pub open spec fn has_room(groups: Seq<Group>, source: int, maximum: usize) -> Seq<bool> {
    Seq::new(groups.len(), |b: int| b != source && groups[b].members.len() < maximum)
}

/// The group that takes a stop at `p` from group `source`: of the groups
/// with room the one whose centroid is nearest, of equally near ones the
/// one with the lowest identifier; none if no group has room.
pub open spec fn target(
    groups: Seq<Group>,
    cents: Seq<LngLat>,
    source: int,
    p: LngLat,
    maximum: usize,
) -> Option<int> {
    first_open_min(distances(p, cents), has_room(groups, source, maximum), groups.len() as int)
}

/// The group with `it` added at its end, filed under the group's identifier.
pub open spec fn received(group: Group, it: Item) -> Group {
    Group { id: group.id, members: group.members.push(it.in_group(group.id)) }
}

/// Moves the stops of group `source` at the indices `going[t..]`, one after
/// another, each to its target as the groups stand when its turn comes.
///
/// Gives the groups with every arrival in place, and the number of entries
/// of `going` dealt with when the moving ended: all of them, or as many as
/// came before the first stop that found no room. The stops that moved are
/// still listed in group `source` as well.
pub open spec fn move_out(
    groups: Seq<Group>,
    cents: Seq<LngLat>,
    source: int,
    going: Seq<usize>,
    t: int,
    maximum: usize,
) -> (Seq<Group>, int)
    decreases going.len() - t,
{
    if t < 0 || t >= going.len() {
        (groups, t)
    } else {
        let it = groups[source].members[going[t] as int];
        match target(groups, cents, source, it.position(), maximum) {
            None => (groups, t),
            Some(b) => move_out(
                groups.update(b, received(groups[b], it)),
                cents,
                source,
                going,
                t + 1,
                maximum,
            ),
        }
    }
}

/// The first `n` of `members` without those whose index is listed in `gone`.
pub open spec fn without(members: Seq<Item>, gone: Seq<usize>, n: int) -> Seq<Item>
    decreases n,
{
    if n <= 0 {
        Seq::empty()
    } else {
        let earlier = without(members, gone, n - 1);
        if gone.contains((n - 1) as usize) {
            earlier
        } else {
            earlier.push(members[n - 1])
        }
    }
}

/// Brings group `source` down towards capacity.
///
/// The stops that the policy names are moved out in turn; the group keeps
/// the others in the order they had. The flag tells whether every named
/// stop found a place.
pub open spec fn shed(groups: Seq<Group>, cents: Seq<LngLat>, source: int, maximum: usize) -> (
    Seq<Group>,
    bool,
) {
    let members = groups[source].members;
    let going = leaving(farthest_first(members, cents[source]), maximum);
    let (after, moved) = move_out(groups, cents, source, going, 0, maximum);
    let kept = without(members, going.take(moved), members.len() as int);
    (after.update(source, Group { id: groups[source].id, members: kept }), moved == going.len())
}

/// Handles the groups from index `a` on, in order: one above capacity
/// sheds, the others are passed over. Ends at the first group that cannot
/// shed all it has to, and tells whether it got through them all.
pub open spec fn rebalance_from(groups: Seq<Group>, cents: Seq<LngLat>, a: int, maximum: usize) -> (
    Seq<Group>,
    bool,
)
    decreases cents.len() - a,
{
    if a < 0 || a >= cents.len() {
        (groups, true)
    } else if groups[a].members.len() > maximum {
        let (after, ok) = shed(groups, cents, a, maximum);
        if ok {
            rebalance_from(after, cents, a + 1, maximum)
        } else {
            (after, false)
        }
    } else {
        rebalance_from(groups, cents, a + 1, maximum)
    }
}

/// What the rebalancer makes of `items` under capacity `maximum`.
///
/// If no group is above capacity the stops come back as they are.
/// Otherwise they are partitioned by group, the groups are rebalanced in
/// ascending order of identifier, and the result lists the groups in that
/// order, each with the stops it kept in the order they had, followed by
/// its arrivals in order of arrival.
pub open spec fn redistributed(items: Seq<Item>, maximum: usize) -> (Seq<Item>, Status) {
    if within_capacity(items, maximum) {
        (items, Status::NotNeeded)
    } else {
        let groups = grouping(items);
        let (after, ok) = rebalance_from(groups, centroids(groups), 0, maximum);
        (
            concat(after),
            if ok {
                Status::Completed
            } else {
                Status::OverCapacity
            },
        )
    }
}

/// Computes the centroid of every bucket.
fn centroids_of(parts: &Vec<Bucket>) -> (cents: Vec<LngLat>)
    requires
        forall|i: int| 0 <= i < parts.len() ==> (#[trigger] parts[i]).members.len() > 0,
    ensures
        cents@ == centroids(groups_of(parts@)),
{
    let mut cents: Vec<LngLat> = Vec::new();
    let mut i: usize = 0;
    while i < parts.len()
        invariant
            0 <= i <= parts.len(),
            forall|j: int| 0 <= j < parts.len() ==> (#[trigger] parts[j]).members.len() > 0,
            cents.len() == i,
            forall|j: int| 0 <= j < i ==> #[trigger] cents[j] == mean(positions(parts[j].members@)),
        decreases parts.len() - i,
    {
        assert(parts[i as int].members.len() > 0);
        cents.push(centroid_of(&parts[i].members));
        i += 1;
    }
    assert(cents@ =~= centroids(groups_of(parts@)));
    cents
}

/// Computes the keys that rank the stops farthest first.
fn remoteness_of(members: &Vec<Item>, center: &LngLat) -> (keys: Vec<i128>)
    ensures
        key_values(keys@) == remoteness(members@, *center),
{
    let mut keys: Vec<i128> = Vec::new();
    let mut p: usize = 0;
    while p < members.len()
        invariant
            0 <= p <= members.len(),
            keys.len() == p,
            forall|q: int|
                0 <= q < p ==> #[trigger] keys[q] as int == -members[q].position().dist2(*center),
        decreases members.len() - p,
    {
        proof {
            lemma_dist2_bounds(members[p as int].position(), *center);
        }
        let d = squared_distance(&members[p].position(), center);
        keys.push(-(d as i128));
        p += 1;
    }
    assert(key_values(keys@) =~= remoteness(members@, *center));
    keys
}

/// Applies the selection policy to a ranking.
pub fn select_leaving(order: &Vec<usize>, maximum: usize) -> (going: Vec<usize>)
    ensures
        going@ == leaving(order@, maximum),
{
    let mut going: Vec<usize> = Vec::new();
    if maximum > order.len() {
        return going;
    }
    let mut a: usize = maximum;
    while a < order.len()
        invariant
            maximum <= a <= order.len(),
            going.len() == a - maximum,
            forall|b: int| 0 <= b < going.len() ==> #[trigger] going[b] == order[maximum + b],
        decreases order.len() - a,
    {
        going.push(order[a]);
        a += 1;
    }
    assert(going@ =~= leaving(order@, maximum));
    going
}

/// Finds the group that takes a stop at `p` from group `source`.
fn find_target(
    parts: &Vec<Bucket>,
    cents: &Vec<LngLat>,
    source: usize,
    p: &LngLat,
    maximum: usize,
) -> (found: Option<usize>)
    requires
        cents.len() == parts.len(),
    ensures
        found matches Some(b) ==> target(groups_of(parts@), cents@, source as int, *p, maximum)
            == Some(b as int) && b < parts.len() && b != source && parts[b as int].members.len()
            < maximum,
        found is None ==> target(groups_of(parts@), cents@, source as int, *p, maximum) is None,
{
    let ghost keys = distances(*p, cents@);
    let ghost open = has_room(groups_of(parts@), source as int, maximum);
    let mut found: Option<usize> = None;
    let mut best_dist: u128 = 0;
    let mut b: usize = 0;
    while b < parts.len()
        invariant
            0 <= b <= parts.len(),
            cents.len() == parts.len(),
            keys == distances(*p, cents@),
            open == has_room(groups_of(parts@), source as int, maximum),
            match found {
                Some(best) => first_open_min(keys, open, b as int) == Some(best as int) && best < b
                    && best_dist == keys[best as int] && open[best as int],
                None => first_open_min(keys, open, b as int) is None,
            },
        decreases parts.len() - b,
    {
        if b != source && parts[b].members.len() < maximum {
            let d = squared_distance(p, &cents[b]);
            match found {
                Some(_) => {
                    if d < best_dist {
                        found = Some(b);
                        best_dist = d;
                    }
                },
                None => {
                    found = Some(b);
                    best_dist = d;
                },
            }
        }
        b += 1;
    }
    found
}

/// Tells whether no group holds more than `maximum` stops.
pub fn fits(items: &Vec<Item>, maximum: usize) -> (yes: bool)
    ensures
        yes == within_capacity(items@, maximum),
{
    broadcast use vstd::std_specs::hash::group_hash_axioms;

    let mut counts: HashMap<usize, usize> = HashMap::new();
    let mut i: usize = 0;
    assert forall|g: usize| (#[trigger] members_of(items@.take(0), g)).len() == 0 by {
        items@.take(0).lemma_filter_len(carries(g));
    }
    while i < items.len()
        invariant
            0 <= i <= items.len(),
            forall|g: usize|
                counts@.contains_key(g) ==> (#[trigger] members_of(items@.take(i as int), g)).len()
                    == counts@[g],
            forall|g: usize|
                !counts@.contains_key(g) ==> (#[trigger] members_of(items@.take(i as int), g)).len()
                    == 0,
            forall|g: usize| counts@.contains_key(g) ==> #[trigger] counts@[g] <= maximum,
        decreases items.len() - i,
    {
        let g = items[i].g;
        let held: usize = match counts.get(&g) {
            Some(c) => *c,
            None => 0,
        };
        proof {
            assert(items@.take(i + 1) =~= items@.take(i as int).push(items[i as int]));
            let done = items@.take(i as int);
            let more = items@.take(i + 1);
            assert forall|h: usize|
                (#[trigger] members_of(more, h)).len() == members_of(done, h).len() + (if h == g {
                    1int
                } else {
                    0int
                }) by {
                done.lemma_filter_len_push(carries(h), items[i as int]);
            }
            assert(members_of(items@.take(i as int), g).len() == held);
        }
        if held >= maximum {
            proof {
                assert(members_of(items@.take(i + 1), g).len() == held + 1);
                items@.lemma_filter_take_len(carries(g), i + 1);
                assert(members_of(items@, g).len() > maximum);
            }
            return false;
        }
        counts.insert(g, held + 1);
        i += 1;
    }
    assert(items@.take(items.len() as int) =~= items@);
    true
}

/// Brings the bucket at `source` down towards capacity.
fn shed_group(parts: &mut Vec<Bucket>, cents: &Vec<LngLat>, source: usize, maximum: usize) -> (ok:
    bool)
    requires
        source < old(parts).len(),
        cents.len() == old(parts).len(),
        old(parts)[source as int].members.len() > maximum,
    ensures
        final(parts).len() == old(parts).len(),
        (groups_of(final(parts)@), ok) == shed(
            groups_of(old(parts)@),
            cents@,
            source as int,
            maximum,
        ),
{
    let ghost groups0 = groups_of(parts@);
    let ghost members = groups0[source as int].members;
    let n = parts[source].members.len();
    let keys = remoteness_of(&parts[source].members, &cents[source]);
    let order = stable_order(&keys);
    let going = select_leaving(&order, maximum);
    assert(going@ == leaving(farthest_first(members, cents[source as int]), maximum));
    let mut gone: Vec<bool> = Vec::new();
    let mut q: usize = 0;
    while q < n
        invariant
            0 <= q <= n,
            gone.len() == q,
            forall|p: int| 0 <= p < q ==> !#[trigger] gone[p],
        decreases n - q,
    {
        gone.push(false);
        q += 1;
    }
    let mut t: usize = 0;
    let mut blocked = false;
    assert(going@.take(0) =~= Seq::<usize>::empty());
    while t < going.len() && !blocked
        invariant
            parts.len() == groups0.len(),
            cents.len() == parts.len(),
            source < parts.len(),
            groups_of(parts@)[source as int] == groups0[source as int],
            members == groups0[source as int].members,
            n == members.len(),
            0 <= t <= going.len(),
            gone.len() == n,
            forall|x: int| 0 <= x < going.len() ==> #[trigger] going[x] < n,
            forall|p: int|
                0 <= p < n ==> #[trigger] gone[p] == going@.take(t as int).contains(p as usize),
            move_out(groups0, cents@, source as int, going@, 0, maximum) == move_out(
                groups_of(parts@),
                cents@,
                source as int,
                going@,
                t as int,
                maximum,
            ),
            blocked ==> t < going.len() && move_out(
                groups_of(parts@),
                cents@,
                source as int,
                going@,
                t as int,
                maximum,
            ) == (groups_of(parts@), t as int),
        decreases going.len() - t, if blocked { 0int } else { 1int },
    {
        let p = going[t];
        let ghost before = groups_of(parts@);
        let here = parts[source].members[p].position();
        match find_target(parts, cents, source, &here, maximum) {
            None => {
                blocked = true;
            },
            Some(b) => {
                let copy = parts[source].members[p].copy_into_group(parts[b].id);
                parts[b].members.push(copy);
                gone[p] = true;
                proof {
                    let it = before[source as int].members[p as int];
                    assert(groups_of(parts@) =~= before.update(
                        b as int,
                        received(before[b as int], it),
                    ));
                    assert(going@.take(t + 1) =~= going@.take(t as int).push(p));
                    assert forall|r: int| 0 <= r < n implies #[trigger] gone[r] == going@.take(
                        t + 1,
                    ).contains(r as usize) by {
                        if going@.take(t as int).contains(r as usize) {
                            let w = choose|w: int|
                                0 <= w < going@.take(t as int).len() && going@.take(t as int)[w]
                                    == r as usize;
                            assert(going@.take(t + 1)[w] == r as usize);
                        }
                        if r == p {
                            assert(going@.take(t + 1)[t as int] == p);
                        }
                    }
                }
                t += 1;
            },
        }
    }
    let ghost after = groups_of(parts@);
    let mut kept: Vec<Item> = Vec::new();
    let mut q: usize = 0;
    while q < n
        invariant
            0 <= q <= n,
            source < parts.len(),
            after == groups_of(parts@),
            after[source as int].members == members,
            n == members.len(),
            gone.len() == n,
            forall|p: int|
                0 <= p < n ==> #[trigger] gone[p] == going@.take(t as int).contains(p as usize),
            kept@ == without(members, going@.take(t as int), q as int),
        decreases n - q,
    {
        if !gone[q] {
            kept.push(parts[source].members[q].clone());
        }
        q += 1;
    }
    parts[source].members = kept;
    assert(groups_of(parts@) =~= after.update(
        source as int,
        Group { id: groups0[source as int].id, members: kept@ },
    ));
    t == going.len()
}

/// Enforces a maximum group size.
///
/// Where no group holds more than `max_size` stops, the stops come back
/// untouched with the status "no redistribution needed". Otherwise the
/// groups above capacity, in ascending order of identifier, hand stops to
/// groups with room, and the stops are returned group by group in that
/// order, arrivals behind the stops that were there. The status is
/// "redistribution completed" if every group was brought down to capacity,
/// and "some groups remain over capacity" if a stop found no group with
/// room; the stops moved before that stay moved.
pub fn redistribute_clusters(items: Vec<Item>, max_size: usize) -> (result: (Vec<Item>, String))
    ensures
        result.0@ == redistributed(items@, max_size).0,
        result.1@ == redistributed(items@, max_size).1.message(),
        result.0.len() == items.len(),
        stops(result.0@) == stops(items@),
        result.1@ == Status::NotNeeded.message() <==> within_capacity(items@, max_size),
        within_capacity(items@, max_size) ==> result.0@ == items@,
        within_capacity(result.0@, max_size) <==> result.1@ != Status::OverCapacity.message(),
        result.1@ == Status::NotNeeded.message() || result.1@ == Status::Completed.message()
            ==> within_capacity(result.0@, max_size),
        !within_capacity(items@, max_size) ==> ascending_by_group(result.0@),
        forall|i: int| 0 <= i < result.0.len() ==> in_use(items@, (#[trigger] result.0[i]).g),
{
    proof {
        assert(items@.len() == items.len());
        lemma_redistributed(items@, max_size);
        lemma_messages_differ(redistributed(items@, max_size).1, Status::NotNeeded);
        lemma_messages_differ(redistributed(items@, max_size).1, Status::OverCapacity);
        lemma_messages_differ(redistributed(items@, max_size).1, Status::Completed);
    }
    if fits(&items, max_size) {
        return (items, Status::NotNeeded.text());
    }
    let mut parts = partition(items);
    let ghost groups = groups_of(parts@);
    assert forall|i: int| 0 <= i < parts.len() implies (#[trigger] parts[i]).members.len() > 0 by {
        assert(groups[i].members.len() > 0);
    }
    let cents = centroids_of(&parts);
    let mut a: usize = 0;
    let mut ok = true;
    while a < parts.len() && ok
        invariant
            0 <= a <= parts.len(),
            cents.len() == parts.len(),
            rebalance_from(groups, cents@, 0, max_size) == if ok {
                rebalance_from(groups_of(parts@), cents@, a as int, max_size)
            } else {
                (groups_of(parts@), false)
            },
        decreases parts.len() - a, if ok { 1int } else { 0int },
    {
        if parts[a].members.len() > max_size {
            ok = shed_group(&mut parts, &cents, a, max_size);
        }
        if ok {
            a += 1;
        }
    }
    let status = if ok {
        Status::Completed
    } else {
        Status::OverCapacity
    };
    (flatten(parts), status.text())
}

} // verus!
