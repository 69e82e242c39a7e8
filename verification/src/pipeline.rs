//! The three stages in sequence.

use vstd::prelude::*;
use crate::clusterer::{clustered, kmeans, lemma_clustered_keeps_stops};
use crate::guarantees::lemma_redistributed;
use crate::model::{stops, Item};
use crate::rebalancer::{redistribute_clusters, redistributed};
use crate::router::{lemma_routed_permutes, routed, tsp_by_groups};

verus! {

/// The round limit the pipeline gives the clusterer.
pub const MAX_ROUNDS: usize = 100;

/// The capacity the pipeline gives the rebalancer.
pub const GROUP_CAPACITY: usize = 30;

/// What the pipeline makes of `items` for `k` groups: clustered, then
/// routed, then rebalanced.
pub open spec fn planned(items: Seq<Item>, k: usize) -> Seq<Item> {
    redistributed(routed(clustered(items, k, MAX_ROUNDS)), GROUP_CAPACITY).0
}

/// From end to end the pipeline hands on exactly the stops it was given: as
/// many, each with its name, address and position. Stops are filed under
/// new groups and put in a new order, and that is all.
pub proof fn lemma_planned_keeps_stops(items: Seq<Item>, k: usize)
    requires
        items.len() <= usize::MAX,
    ensures
        planned(items, k).len() == items.len(),
        stops(planned(items, k)) == stops(items),
{
    let clusters = clustered(items, k, MAX_ROUNDS);
    let routes = routed(clusters);
    lemma_clustered_keeps_stops(items, k, MAX_ROUNDS);
    lemma_routed_permutes(clusters);
    lemma_redistributed(routes, GROUP_CAPACITY);
}

/// Splits stops into up to `k` groups of at most `GROUP_CAPACITY` stops and
/// orders each group for visiting.
///
/// The stops come back in their final order, each with the identifier of
/// its final group. How the rebalancing ended is not reported here; call
/// the stages one by one to learn it.
pub fn get_mtsp(items: Vec<Item>, k: usize) -> (result: Vec<Item>)
    ensures
        result@ == planned(items@, k),
        result.len() == items.len(),
        stops(result@) == stops(items@),
{
    let clusters = kmeans(items, k, MAX_ROUNDS);
    let routes = tsp_by_groups(clusters);
    let (result, _) = redistribute_clusters(routes, GROUP_CAPACITY);
    result
}

} // verus!
