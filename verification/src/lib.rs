//! Splitting geolocated stops into groups of bounded size and proposing a
//! visiting order for each group.
//!
//! Three stages run in sequence: a clusterer that assigns group identifiers
//! by k-means, a router that orders every group by the nearest-neighbour
//! rule, and a rebalancer that moves stops out of groups that exceed a
//! capacity.

use vstd::prelude::*;

pub mod centroid;
pub mod clusterer;
pub mod grouping;
pub mod guarantees;
pub mod model;
pub mod pipeline;
pub mod ranking;
pub mod rebalancer;
pub mod router;
pub mod select;
pub mod tour;

pub use crate::clusterer::kmeans;
pub use crate::model::{Item, LngLat};
pub use crate::pipeline::get_mtsp;
pub use crate::rebalancer::redistribute_clusters;
pub use crate::router::tsp_by_groups;
pub use crate::tour::tsp_nearest_neighbor;

verus! {

/// Does nothing. A call succeeds wherever the library is linked in, which
/// is all that it shows.
pub fn test() {
}

} // verus!
