//! The router: every group toured on its own, the tours joined in ascending
//! order of group identifier.

use vstd::prelude::*;
use vstd::seq_lib::*;
use crate::grouping::{
    ascending_by_group, carries, concat, grouping, groups_of, has_group, lemma_concat_ascending,
    lemma_concat_by_group, lemma_concat_without_group, lemma_filter_drops_all,
    lemma_grouping_contents, lemma_grouping_is_partition, lemma_partition_well_formed, members_of,
    partition, well_formed, Group,
};
use crate::model::{lemma_same_entries_same_stops, stops, Item};
use crate::tour::{lemma_tour_keeps_group, lemma_tour_permutes, tour, tsp_nearest_neighbor};

verus! {

/// The groups, each with its stops in the order of its tour.
pub open spec fn toured(groups: Seq<Group>) -> Seq<Group> {
    Seq::new(groups.len(), |i: int| Group { id: groups[i].id, members: tour(groups[i].members) })
}

/// What the router makes of `items`: the tour of each group, the groups in
/// ascending order of identifier.
pub open spec fn routed(items: Seq<Item>) -> Seq<Item> {
    concat(toured(grouping(items)))
}

/// Touring leaves well-formed groups well formed: no tour leaves its group.
pub proof fn lemma_toured_well_formed(groups: Seq<Group>)
    requires
        well_formed(groups),
    ensures
        well_formed(toured(groups)),
{
    let laps = toured(groups);
    assert forall|i: int, j: int| 0 <= i < j < laps.len() implies (#[trigger] laps[i]).id < (
    #[trigger] laps[j]).id by {
        assert(groups[i].id < groups[j].id);
    }
    assert forall|i: int, k: int| 0 <= i < laps.len() && 0 <= k < laps[i].members.len() implies (
    #[trigger] laps[i].members[k]).g == laps[i].id by {
        assert forall|m: int| 0 <= m < groups[i].members.len() implies (
        #[trigger] groups[i].members[m]).g == groups[i].id by {
            assert(groups[i].members[m].g == groups[i].id);
        }
        lemma_tour_keeps_group(groups[i].members, groups[i].id);
    }
}

/// Touring rearranges stops within each group only: the toured groups
/// together hold what the groups held.
pub proof fn lemma_toured_contents(groups: Seq<Group>)
    ensures
        concat(toured(groups)).len() == concat(groups).len(),
        concat(toured(groups)).to_multiset() == concat(groups).to_multiset(),
    decreases groups.len(),
{
    if groups.len() > 0 {
        let before = groups.drop_last();
        let last = groups.last();
        assert(toured(groups).drop_last() =~= toured(before));
        lemma_toured_contents(before);
        lemma_tour_permutes(last.members);
        lemma_multiset_commutative(concat(toured(before)), tour(last.members));
        lemma_multiset_commutative(concat(before), last.members);
    }
}

/// The router's output, restricted to any one group, is the tour of that
/// group's stops as they stood in the input.
pub proof fn lemma_routed_by_group(items: Seq<Item>, g: usize)
    ensures
        members_of(routed(items), g) == tour(members_of(items, g)),
{
    let groups = grouping(items);
    let laps = toured(groups);
    lemma_grouping_is_partition(items);
    lemma_partition_well_formed(groups, items);
    lemma_toured_well_formed(groups);
    if has_group(groups, g) {
        let i = choose|i: int| 0 <= i < groups.len() && (#[trigger] groups[i]).id == g;
        assert(laps[i].id == g);
        lemma_concat_by_group(laps, i);
        assert(groups[i].members == members_of(items, g));
    } else {
        assert(!has_group(laps, g)) by {
            if has_group(laps, g) {
                let i = choose|i: int| 0 <= i < laps.len() && (#[trigger] laps[i]).id == g;
                assert(groups[i].id == g);
            }
        }
        lemma_concat_without_group(laps, g);
        assert forall|k: int| 0 <= k < items.len() implies !carries(g)(#[trigger] items[k]) by {
            assert(has_group(groups, items[k].g));
        }
        lemma_filter_drops_all(items, carries(g));
    }
}

/// The router only rearranges: its output holds the entries of its input,
/// each as often, and runs through the group identifiers in ascending order.
pub proof fn lemma_routed_permutes(items: Seq<Item>)
    ensures
        routed(items).len() == items.len(),
        routed(items).to_multiset() == items.to_multiset(),
        stops(routed(items)) == stops(items),
        ascending_by_group(routed(items)),
{
    let groups = grouping(items);
    lemma_grouping_is_partition(items);
    lemma_partition_well_formed(groups, items);
    lemma_toured_well_formed(groups);
    lemma_toured_contents(groups);
    lemma_concat_ascending(toured(groups));
    lemma_grouping_contents(items);
    lemma_same_entries_same_stops(routed(items), items);
}

/// The router keeps every group together: restricted to any one group, its
/// output holds exactly the stops that the group had in the input, none
/// twice and none missing.
pub proof fn lemma_routed_permutes_groups(items: Seq<Item>, g: usize)
    ensures
        members_of(routed(items), g).to_multiset() == members_of(items, g).to_multiset(),
        members_of(routed(items), g).len() == members_of(items, g).len(),
{
    lemma_routed_by_group(items, g);
    lemma_tour_permutes(members_of(items, g));
}

/// Orders every group by the nearest-neighbour rule and joins the routes.
///
/// The stops are partitioned by group identifier; each group is toured from
/// its first stop; the tours follow one another in ascending order of
/// identifier. Stops are only rearranged, and only within their group.
pub fn tsp_by_groups(items: Vec<Item>) -> (result: Vec<Item>)
    ensures
        result@ == routed(items@),
        result@.len() == items@.len(),
        result@.to_multiset() == items@.to_multiset(),
        stops(result@) == stops(items@),
        ascending_by_group(result@),
        forall|g: usize| #[trigger] members_of(result@, g) == tour(members_of(items@, g)),
        forall|g: usize|
            (#[trigger] members_of(result@, g)).to_multiset() == members_of(
                items@,
                g,
            ).to_multiset(),
{
    let parts = partition(items);
    let ghost laps = toured(groups_of(parts@));
    let mut result: Vec<Item> = Vec::new();
    assert(laps.take(0) =~= Seq::<Group>::empty());
    for part in iter: parts
        invariant
            iter.seq() == parts@,
            laps == toured(groups_of(parts@)),
            result@ == concat(laps.take(iter.index() as int)),
    {
        assert(laps.take(iter.index() + 1).drop_last() =~= laps.take(iter.index() as int));
        assert(laps.take(iter.index() + 1).last().members == tour(part.members@));
        let mut lap = tsp_nearest_neighbor(part.members);
        result.append(&mut lap);
    }
    proof {
        assert(laps.take(laps.len() as int) =~= laps);
        lemma_routed_permutes(items@);
        assert forall|g: usize| #[trigger] members_of(result@, g) == tour(
            members_of(items@, g),
        ) by {
            lemma_routed_by_group(items@, g);
        }
        assert forall|g: usize|
            (#[trigger] members_of(result@, g)).to_multiset() == members_of(
                items@,
                g,
            ).to_multiset() by {
            lemma_routed_permutes_groups(items@, g);
        }
    }
    result
}

} // verus!
