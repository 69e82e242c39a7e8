//! What the rebalancer guarantees: nothing is lost, and a run that does not
//! report groups over capacity leaves none.

use vstd::prelude::*;
use crate::grouping::{
    ascending_by_group, carries, concat, grouping, has_group, lemma_concat_around,
    lemma_concat_ascending, lemma_concat_by_group, lemma_concat_update, lemma_concat_without_group,
    lemma_grouping_contents, lemma_grouping_is_partition, lemma_partition_well_formed,
    lemma_well_formed_drop_last, members_of, well_formed, Group,
};
use crate::model::{
    distances, lemma_same_entries_same_stops, lemma_stops_add, lemma_stops_len, lemma_stops_push,
    stops, Item, LngLat,
};
use crate::ranking::{lemma_ranking_ranks, ranks_before};
use crate::rebalancer::{
    centroids, farthest_first, has_room, leaving, move_out, rebalance_from, received, redistributed,
    remoteness, shed, target, within_capacity, without, Status,
};
use crate::select::lemma_first_open_min;

verus! {

/// Every index listed is below `n`, and none is listed twice.
pub open spec fn distinct_below(going: Seq<usize>, n: int) -> bool {
    &&& forall|x: int| 0 <= x < going.len() ==> #[trigger] going[x] < n
    &&& forall|x: int, y: int|
        0 <= x < y < going.len() ==> #[trigger] going[x] != #[trigger] going[y]
}

/// The policy names each leaving stop once, and names as many as the group
/// holds above capacity.
pub proof fn lemma_leaving_distinct(members: Seq<Item>, center: LngLat, maximum: usize)
    requires
        maximum <= members.len() <= usize::MAX,
    ensures
        distinct_below(leaving(farthest_first(members, center), maximum), members.len() as int),
        leaving(farthest_first(members, center), maximum).len() == members.len() - maximum,
{
    let keys = remoteness(members, center);
    let order = farthest_first(members, center);
    let going = leaving(order, maximum);
    lemma_ranking_ranks(keys, members.len() as int);
    assert forall|x: int, y: int| 0 <= x < y < going.len() implies #[trigger] going[x]
        != #[trigger] going[y] by {
        assert(ranks_before(keys, order[maximum + x] as int, order[maximum + y] as int));
    }
    assert forall|x: int| 0 <= x < going.len() implies #[trigger] going[x] < members.len() by {
        assert(going[x] == order[maximum + x]);
    }
}

/// With no index listed, nothing is left out.
pub proof fn lemma_without_nothing(members: Seq<Item>, n: int)
    requires
        0 <= n <= members.len(),
    ensures
        without(members, Seq::empty(), n) == members.take(n),
    decreases n,
{
    if n > 0 {
        lemma_without_nothing(members, n - 1);
        assert(!Seq::<usize>::empty().contains((n - 1) as usize));
        assert(members.take(n - 1).push(members[n - 1]) =~= members.take(n));
    } else {
        assert(members.take(n) =~= Seq::<Item>::empty());
    }
}

/// Listing one more index leaves out exactly one more stop: the one at
/// that index.
pub proof fn lemma_without_one_more(members: Seq<Item>, gone: Seq<usize>, x: usize, n: int)
    requires
        0 <= n <= members.len() <= usize::MAX,
        x < members.len(),
        !gone.contains(x),
    ensures
        n <= x ==> without(members, gone.push(x), n) == without(members, gone, n),
        n > x ==> without(members, gone, n).len() == without(members, gone.push(x), n).len() + 1,
        n > x ==> stops(without(members, gone, n)) == stops(
            without(members, gone.push(x), n),
        ).insert(members[x as int].in_group(0)),
    decreases n,
{
    broadcast use vstd::multiset::group_multiset_axioms;

    if n > 0 {
        let y = (n - 1) as usize;
        lemma_without_one_more(members, gone, x, n - 1);
        assert(gone.push(x).contains(y) <==> gone.contains(y) || y == x) by {
            if gone.contains(y) {
                let w = choose|w: int| 0 <= w < gone.len() && gone[w] == y;
                assert(gone.push(x)[w] == y);
            }
            if y == x {
                assert(gone.push(x)[gone.len() as int] == x);
            }
        }
        if y == x {
            lemma_stops_push(without(members, gone, n - 1), members[x as int]);
        } else if n - 1 > x {
            if !gone.contains(y) {
                lemma_stops_push(without(members, gone, n - 1), members[n - 1]);
                lemma_stops_push(without(members, gone.push(x), n - 1), members[n - 1]);
                assert(stops(without(members, gone, n)) =~= stops(
                    without(members, gone.push(x), n),
                ).insert(members[x as int].in_group(0)));
            }
        }
    }
}

/// What is left after leaving some out was there before.
pub proof fn lemma_without_from_members(
    members: Seq<Item>,
    gone: Seq<usize>,
    n: int,
    k: int,
) -> (p: int)
    requires
        0 <= n <= members.len(),
        0 <= k < without(members, gone, n).len(),
    ensures
        0 <= p < n,
        without(members, gone, n)[k] == members[p],
    decreases n,
{
    let earlier = without(members, gone, n - 1);
    if k < earlier.len() {
        lemma_without_from_members(members, gone, n - 1, k)
    } else {
        n - 1
    }
}

/// The group at `source` with `kept` for its stops.
pub open spec fn keeping(groups: Seq<Group>, source: int, kept: Seq<Item>) -> Seq<Group> {
    groups.update(source, Group { id: groups[source].id, members: kept })
}

/// A group that receives a stop gains that stop, and the groups as a whole
/// gain it too.
pub proof fn lemma_receive_adds(groups: Seq<Group>, b: int, it: Item)
    requires
        0 <= b < groups.len(),
    ensures
        stops(concat(groups.update(b, received(groups[b], it)))) == stops(concat(groups)).insert(
            it.in_group(0),
        ),
{
    broadcast use vstd::multiset::group_multiset_axioms;

    let head = concat(groups.take(b));
    let tail = concat(groups.skip(b + 1));
    let arrival = it.in_group(groups[b].id);
    lemma_concat_around(groups, b);
    lemma_concat_update(groups, b, received(groups[b], it));
    lemma_stops_add(head + groups[b].members, tail);
    lemma_stops_add(head, groups[b].members);
    lemma_stops_add(head + groups[b].members.push(arrival), tail);
    lemma_stops_add(head, groups[b].members.push(arrival));
    lemma_stops_push(groups[b].members, arrival);
    assert(arrival.in_group(0) == it.in_group(0));
    assert(stops(concat(groups.update(b, received(groups[b], it)))) =~= stops(
        concat(groups),
    ).insert(it.in_group(0)));
}

/// A group that gives up one stop loses that stop, and the groups as a
/// whole lose it too.
pub proof fn lemma_release_removes(groups: Seq<Group>, i: int, kept: Seq<Item>, gone: Item)
    requires
        0 <= i < groups.len(),
        stops(groups[i].members) == stops(kept).insert(gone),
    ensures
        stops(concat(groups)) == stops(concat(keeping(groups, i, kept))).insert(gone),
{
    broadcast use vstd::multiset::group_multiset_axioms;

    let head = concat(groups.take(i));
    let tail = concat(groups.skip(i + 1));
    lemma_concat_around(groups, i);
    lemma_concat_update(groups, i, Group { id: groups[i].id, members: kept });
    lemma_stops_add(head + groups[i].members, tail);
    lemma_stops_add(head, groups[i].members);
    lemma_stops_add(head + kept, tail);
    lemma_stops_add(head, kept);
    assert(stops(concat(groups)) =~= stops(concat(keeping(groups, i, kept))).insert(gone));
}

/// What a target is, when there is one: another group, below capacity.
pub proof fn lemma_target(
    groups: Seq<Group>,
    cents: Seq<LngLat>,
    source: int,
    p: LngLat,
    maximum: usize,
)
    requires
        cents.len() == groups.len(),
    ensures
        target(groups, cents, source, p, maximum) matches Some(b) ==> 0 <= b < groups.len() && b
            != source && groups[b].members.len() < maximum,
{
    lemma_first_open_min(
        distances(p, cents),
        has_room(groups, source, maximum),
        groups.len() as int,
    );
}

/// Moving stops out changes no identifier, leaves the giving group as it
/// was, fills no group beyond capacity, and files every arrival under the
/// identifier of the group it joins.
pub proof fn lemma_move_out_shape(
    groups: Seq<Group>,
    cents: Seq<LngLat>,
    source: int,
    going: Seq<usize>,
    t: int,
    maximum: usize,
)
    requires
        0 <= source < groups.len(),
        cents.len() == groups.len(),
        0 <= t <= going.len(),
    ensures
        move_out(groups, cents, source, going, t, maximum).0.len() == groups.len(),
        t <= move_out(groups, cents, source, going, t, maximum).1 <= going.len(),
        move_out(groups, cents, source, going, t, maximum).0[source] == groups[source],
        forall|i: int|
            0 <= i < groups.len() ==> (#[trigger] move_out(
                groups,
                cents,
                source,
                going,
                t,
                maximum,
            ).0[i]).id == groups[i].id,
        forall|i: int|
            0 <= i < groups.len() ==> (#[trigger] move_out(
                groups,
                cents,
                source,
                going,
                t,
                maximum,
            ).0[i]).members.len() <= maximum || move_out(
                groups,
                cents,
                source,
                going,
                t,
                maximum,
            ).0[i] == groups[i],
        well_formed(groups) ==> well_formed(move_out(groups, cents, source, going, t, maximum).0),
    decreases going.len() - t,
{
    if t < going.len() {
        let it = groups[source].members[going[t] as int];
        lemma_target(groups, cents, source, it.position(), maximum);
        match target(groups, cents, source, it.position(), maximum) {
            None => {},
            Some(b) => {
                let next = groups.update(b, received(groups[b], it));
                lemma_move_out_shape(next, cents, source, going, t + 1, maximum);
                let after = move_out(groups, cents, source, going, t, maximum).0;
                assert(after == move_out(next, cents, source, going, t + 1, maximum).0);
                assert forall|i: int| 0 <= i < groups.len() implies (
                #[trigger] after[i]).members.len() <= maximum || after[i] == groups[i] by {
                    if after[i] == next[i] && i != b {
                        assert(next[i] == groups[i]);
                    }
                }
                if well_formed(groups) {
                    assert(well_formed(next)) by {
                        assert forall|i: int, j: int| 0 <= i < j < next.len() implies (
                        #[trigger] next[i]).id < (#[trigger] next[j]).id by {
                            assert(groups[i].id < groups[j].id);
                        }
                        assert forall|i: int, k: int|
                            0 <= i < next.len() && 0 <= k < next[i].members.len() implies (
                        #[trigger] next[i].members[k]).g == next[i].id by {
                            if i == b && k == groups[b].members.len() {
                            } else {
                                assert(groups[i].members[k].g == groups[i].id);
                            }
                        }
                    }
                }
            },
        }
    }
}

/// Moving stops out loses none: with the moved stops struck from the giving
/// group, the groups hold after the moving what they held before it.
pub proof fn lemma_move_out_keeps(
    groups: Seq<Group>,
    cents: Seq<LngLat>,
    source: int,
    going: Seq<usize>,
    t: int,
    maximum: usize,
)
    requires
        0 <= source < groups.len(),
        cents.len() == groups.len(),
        0 <= t <= going.len(),
        groups[source].members.len() <= usize::MAX,
        distinct_below(going, groups[source].members.len() as int),
    ensures
        ({
            let members = groups[source].members;
            let (after, moved) = move_out(groups, cents, source, going, t, maximum);
            &&& stops(
                concat(
                    keeping(
                        after,
                        source,
                        without(members, going.take(moved), members.len() as int),
                    ),
                ),
            ) == stops(
                concat(
                    keeping(
                        groups,
                        source,
                        without(members, going.take(t), members.len() as int),
                    ),
                ),
            )
            &&& without(members, going.take(moved), members.len() as int).len() == without(
                members,
                going.take(t),
                members.len() as int,
            ).len() - (moved - t)
        }),
    decreases going.len() - t,
{
    broadcast use vstd::multiset::group_multiset_axioms;

    if t < going.len() {
        let members = groups[source].members;
        let n = members.len() as int;
        let it = members[going[t] as int];
        lemma_target(groups, cents, source, it.position(), maximum);
        match target(groups, cents, source, it.position(), maximum) {
            None => {},
            Some(b) => {
                let next = groups.update(b, received(groups[b], it));
                let kept = without(members, going.take(t), n);
                let kept_next = without(members, going.take(t + 1), n);
                let gone = it.in_group(0);
                lemma_move_out_keeps(next, cents, source, going, t + 1, maximum);
                assert(going.take(t + 1) =~= going.take(t).push(going[t]));
                assert(!going.take(t).contains(going[t])) by {
                    if going.take(t).contains(going[t]) {
                        let w = choose|w: int|
                            0 <= w < going.take(t).len() && going.take(t)[w] == going[t];
                        assert(going[w] != going[t]);
                    }
                }
                lemma_without_one_more(members, going.take(t), going[t], n);
                let held = keeping(groups, source, kept);
                let filled = held.update(b, received(groups[b], it));
                lemma_receive_adds(held, b, it);
                assert(filled == held.update(b, received(held[b], it)));
                lemma_release_removes(filled, source, kept_next, gone);
                assert(keeping(filled, source, kept_next) =~= keeping(next, source, kept_next));
                let x = stops(concat(held));
                let y = stops(concat(keeping(next, source, kept_next)));
                assert(x.insert(gone) == y.insert(gone));
                assert(x =~= y) by {
                    assert forall|v: Item| x.count(v) == y.count(v) by {
                        assert(x.insert(gone).count(v) == y.insert(gone).count(v));
                    }
                }
            },
        }
    }
}

/// Shedding keeps every stop and every identifier, keeps the groups well
/// formed and fills none beyond capacity. The shedding group ends at
/// capacity exactly if all its leaving stops found room, and above it if
/// one did not.
pub proof fn lemma_shed(groups: Seq<Group>, cents: Seq<LngLat>, source: int, maximum: usize)
    requires
        well_formed(groups),
        0 <= source < groups.len(),
        cents.len() == groups.len(),
        maximum < groups[source].members.len() <= usize::MAX,
    ensures
        shed(groups, cents, source, maximum).0.len() == groups.len(),
        forall|i: int|
            0 <= i < groups.len() ==> (#[trigger] shed(groups, cents, source, maximum).0[i]).id
                == groups[i].id,
        well_formed(shed(groups, cents, source, maximum).0),
        stops(concat(shed(groups, cents, source, maximum).0)) == stops(concat(groups)),
        forall|i: int|
            0 <= i < groups.len() && i != source ==> (#[trigger] shed(
                groups,
                cents,
                source,
                maximum,
            ).0[i]).members.len() <= maximum || shed(groups, cents, source, maximum).0[i]
                == groups[i],
        shed(groups, cents, source, maximum).1 ==> shed(
            groups,
            cents,
            source,
            maximum,
        ).0[source].members.len() == maximum,
        !shed(groups, cents, source, maximum).1 ==> shed(
            groups,
            cents,
            source,
            maximum,
        ).0[source].members.len() > maximum,
{
    let members = groups[source].members;
    let n = members.len() as int;
    let going = leaving(farthest_first(members, cents[source]), maximum);
    let (mid, moved) = move_out(groups, cents, source, going, 0, maximum);
    let kept = without(members, going.take(moved), n);
    let after = shed(groups, cents, source, maximum).0;
    lemma_leaving_distinct(members, cents[source], maximum);
    lemma_move_out_shape(groups, cents, source, going, 0, maximum);
    lemma_move_out_keeps(groups, cents, source, going, 0, maximum);
    lemma_without_nothing(members, n);
    assert(going.take(0) =~= Seq::<usize>::empty());
    assert(members.take(n) =~= members);
    assert(keeping(groups, source, members) =~= groups);
    assert(after == keeping(mid, source, kept));
    assert forall|i: int| 0 <= i < groups.len() implies (#[trigger] after[i]).id == groups[i].id by {
        assert(mid[i].id == groups[i].id);
    }
    assert forall|i: int| 0 <= i < groups.len() && i != source implies (
    #[trigger] after[i]).members.len() <= maximum || after[i] == groups[i] by {
        assert(after[i] == mid[i]);
    }
    assert(well_formed(after)) by {
        assert forall|i: int, j: int| 0 <= i < j < after.len() implies (#[trigger] after[i]).id < (
        #[trigger] after[j]).id by {
            assert(mid[i].id < mid[j].id);
        }
        assert forall|i: int, k: int|
            0 <= i < after.len() && 0 <= k < after[i].members.len() implies (
        #[trigger] after[i].members[k]).g == after[i].id by {
            if i == source {
                let p = lemma_without_from_members(members, going.take(moved), n, k);
                assert(groups[source].members[p].g == groups[source].id);
            } else {
                assert(mid[i].members[k].g == mid[i].id);
            }
        }
    }
}

/// Every group up to index `a` is within capacity.
pub open spec fn settled_below(groups: Seq<Group>, a: int, maximum: usize) -> bool {
    forall|i: int|
        0 <= i < a && i < groups.len() ==> (#[trigger] groups[i]).members.len() <= maximum
}

/// Some group is above capacity.
pub open spec fn some_overfull(groups: Seq<Group>, maximum: usize) -> bool {
    exists|i: int| 0 <= i < groups.len() && (#[trigger] groups[i]).members.len() > maximum
}

/// Rebalancing keeps every stop and keeps the groups well formed. If it
/// gets through all groups, none is above capacity afterwards; if it ends
/// early, one is.
pub proof fn lemma_rebalance(groups: Seq<Group>, cents: Seq<LngLat>, a: int, maximum: usize)
    requires
        well_formed(groups),
        cents.len() == groups.len(),
        0 <= a <= groups.len(),
        settled_below(groups, a, maximum),
        forall|i: int| 0 <= i < groups.len() ==> (#[trigger] groups[i]).members.len() <= usize::MAX,
    ensures
        rebalance_from(groups, cents, a, maximum).0.len() == groups.len(),
        forall|i: int|
            0 <= i < groups.len() ==> (#[trigger] rebalance_from(groups, cents, a, maximum).0[i]).id
                == groups[i].id,
        well_formed(rebalance_from(groups, cents, a, maximum).0),
        stops(concat(rebalance_from(groups, cents, a, maximum).0)) == stops(concat(groups)),
        rebalance_from(groups, cents, a, maximum).1 ==> settled_below(
            rebalance_from(groups, cents, a, maximum).0,
            groups.len() as int,
            maximum,
        ),
        !rebalance_from(groups, cents, a, maximum).1 ==> some_overfull(
            rebalance_from(groups, cents, a, maximum).0,
            maximum,
        ),
    decreases groups.len() - a,
{
    if a < groups.len() {
        if groups[a].members.len() > maximum {
            let (after, ok) = shed(groups, cents, a, maximum);
            lemma_shed(groups, cents, a, maximum);
            if ok {
                assert(settled_below(after, a + 1, maximum)) by {
                    assert forall|i: int| 0 <= i < a + 1 && i < after.len() implies (
                    #[trigger] after[i]).members.len() <= maximum by {
                        if i < a {
                            assert(groups[i].members.len() <= maximum);
                        }
                    }
                }
                assert forall|i: int| 0 <= i < after.len() implies (
                #[trigger] after[i]).members.len() <= usize::MAX by {
                    if i != a {
                        assert(after[i].members.len() <= maximum || after[i] == groups[i]);
                        assert(groups[i].members.len() <= usize::MAX);
                    }
                }
                lemma_rebalance(after, cents, a + 1, maximum);
                let last = rebalance_from(after, cents, a + 1, maximum).0;
                assert forall|i: int| 0 <= i < groups.len() implies (#[trigger] last[i]).id
                    == groups[i].id by {
                    assert(after[i].id == groups[i].id);
                }
            } else {
                assert(after[a].members.len() > maximum);
            }
        } else {
            assert(settled_below(groups, a + 1, maximum));
            lemma_rebalance(groups, cents, a + 1, maximum);
        }
    }
}

/// For well-formed groups, no group of the joined stops is above capacity
/// exactly if none of the groups is.
pub proof fn lemma_capacity_of_concat(groups: Seq<Group>, maximum: usize)
    requires
        well_formed(groups),
    ensures
        within_capacity(concat(groups), maximum) <==> !some_overfull(groups, maximum),
{
    if some_overfull(groups, maximum) {
        let i = choose|i: int|
            0 <= i < groups.len() && (#[trigger] groups[i]).members.len() > maximum;
        lemma_concat_by_group(groups, i);
        assert(members_of(concat(groups), groups[i].id).len() > maximum);
    } else {
        assert forall|g: usize| #[trigger] members_of(concat(groups), g).len() <= maximum by {
            if has_group(groups, g) {
                let i = choose|i: int| 0 <= i < groups.len() && (#[trigger] groups[i]).id == g;
                lemma_concat_by_group(groups, i);
                assert(groups[i].members.len() <= maximum);
            } else {
                lemma_concat_without_group(groups, g);
            }
        }
    }
}

/// Every stop of joined groups comes from one of the groups, and if the
/// groups are well formed it carries that group's identifier.
pub proof fn lemma_concat_source(groups: Seq<Group>, i: int) -> (b: int)
    requires
        well_formed(groups),
        0 <= i < concat(groups).len(),
    ensures
        0 <= b < groups.len(),
        concat(groups)[i].g == groups[b].id,
    decreases groups.len(),
{
    let before = groups.drop_last();
    lemma_well_formed_drop_last(groups);
    if i < concat(before).len() {
        lemma_concat_source(before, i)
    } else {
        assert(concat(groups)[i] == groups.last().members[i - concat(before).len()]);
        groups.len() - 1
    }
}

/// Whether some stop of `items` is filed under identifier `g`.
pub open spec fn in_use(items: Seq<Item>, g: usize) -> bool {
    exists|j: int| 0 <= j < items.len() && (#[trigger] items[j]).g == g
}

/// A group that is not empty has a stop filed under its identifier.
pub proof fn lemma_member_exists(items: Seq<Item>, g: usize) -> (j: int)
    requires
        members_of(items, g).len() > 0,
    ensures
        0 <= j < items.len(),
        items[j].g == g,
{
    broadcast use vstd::seq_lib::group_filter_ensures;

    let first = members_of(items, g)[0];
    assert(carries(g)(first));
    assert(members_of(items, g).contains(first));
    items.lemma_filter_contains_rev(carries(g), first);
    choose|j: int| 0 <= j < items.len() && items[j] == first
}

/// The rebalancer's guarantees.
///
/// Whatever the status, the output holds exactly the stops of the input: as
/// many, each with its name, address and position. The status is "not
/// needed" exactly if no group of the input was above capacity, and then
/// the output is the input; otherwise the output lists the groups in
/// ascending order of identifier. No group of the output is above capacity
/// exactly if the status is not "over capacity". And every stop of the
/// output is filed under an identifier that was in use in the input.
pub proof fn lemma_redistributed(items: Seq<Item>, maximum: usize)
    requires
        items.len() <= usize::MAX,
    ensures
        redistributed(items, maximum).0.len() == items.len(),
        stops(redistributed(items, maximum).0) == stops(items),
        redistributed(items, maximum).1 == Status::NotNeeded <==> within_capacity(items, maximum),
        within_capacity(items, maximum) ==> redistributed(items, maximum).0 == items,
        within_capacity(redistributed(items, maximum).0, maximum) <==> redistributed(
            items,
            maximum,
        ).1 != Status::OverCapacity,
        !within_capacity(items, maximum) ==> ascending_by_group(redistributed(items, maximum).0),
        forall|i: int|
            0 <= i < redistributed(items, maximum).0.len() ==> in_use(
                items,
                (#[trigger] redistributed(items, maximum).0[i]).g,
            ),
{
    if within_capacity(items, maximum) {
        assert forall|i: int| 0 <= i < items.len() implies in_use(items, (#[trigger] items[i]).g) by {
            assert(items[i].g == items[i].g);
        }
    }
    if !within_capacity(items, maximum) {
        let groups = grouping(items);
        let cents = centroids(groups);
        let (after, ok) = rebalance_from(groups, cents, 0, maximum);
        lemma_grouping_is_partition(items);
        lemma_partition_well_formed(groups, items);
        lemma_grouping_contents(items);
        lemma_same_entries_same_stops(concat(groups), items);
        assert forall|i: int| 0 <= i < groups.len() implies (#[trigger] groups[i]).members.len()
            <= usize::MAX by {
            items.lemma_filter_len(carries(groups[i].id));
        }
        lemma_rebalance(groups, cents, 0, maximum);
        lemma_capacity_of_concat(after, maximum);
        lemma_concat_ascending(after);
        assert forall|i: int| 0 <= i < concat(after).len() implies in_use(
            items,
            (#[trigger] concat(after)[i]).g,
        ) by {
            let b = lemma_concat_source(after, i);
            assert(after[b].id == groups[b].id);
            assert(groups[b].members == members_of(items, groups[b].id));
            let j = lemma_member_exists(items, groups[b].id);
            assert(items[j].g == concat(after)[i].g);
        }
        lemma_stops_len(concat(after));
        lemma_stops_len(items);
        if ok {
            assert(!some_overfull(after, maximum)) by {
                if some_overfull(after, maximum) {
                    let i = choose|i: int|
                        0 <= i < after.len() && (#[trigger] after[i]).members.len() > maximum;
                    assert(after[i].members.len() <= maximum);
                }
            }
        }
    }
}

} // verus!
