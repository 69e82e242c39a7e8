//! The clusterer: k-means over the positions of the stops.
//!
//! Seeding is deterministic. The stops are put in order of position, and the
//! seeds are taken from that order at equal strides. Then rounds of
//! assignment and re-centring follow until the centroids settle or the
//! round limit is reached.

use vstd::prelude::*;
use crate::centroid::{
    floor_mean, lemma_product_bounds, lemma_sum_bounds, lemma_sum_push, mean, sum_lat, sum_lng,
};
use crate::model::{blanked, distances, positions, squared_distance, stops, Item, LngLat};
use crate::ranking::{
    gather, is_ranking, key_values, lemma_gather_permutes, lemma_ranking_of_ranked,
    lemma_ranking_ranks, ranking, ranks_before, stable_order,
};
use crate::select::{first_min, lemma_first_min};

verus! {

/// A centroid has settled when a round moves it by less than this in each
/// direction: one ten-thousandth of a degree.
pub const CONVERGENCE_TOLERANCE: i32 = 1_000;

/// A number that orders positions as longitude first, latitude second does.
pub open spec fn position_key(p: LngLat) -> int {
    (p.0 - i32::MIN) * 0x1_0000_0000 + (p.1 - i32::MIN)
}

/// `position_key` orders positions by longitude and, within one longitude,
/// by latitude; only equal positions share a key.
pub proof fn lemma_position_key_orders(a: LngLat, b: LngLat)
    ensures
        position_key(a) < position_key(b) <==> a.0 < b.0 || (a.0 == b.0 && a.1 < b.1),
        position_key(a) == position_key(b) <==> a == b,
        0 <= position_key(a) < 0x1_0000_0000_0000_0000,
{
}

/// The position keys of a sequence of stops.
pub open spec fn position_keys(items: Seq<Item>) -> Seq<int> {
    Seq::new(items.len(), |i: int| position_key(items[i].position()))
}

/// The stops in order of position: ascending longitude, then ascending
/// latitude, stops at one position in the order they had.
pub open spec fn sorted_by_position(items: Seq<Item>) -> Seq<Item> {
    gather(items, ranking(position_keys(items)))
}

/// The index of the centroid nearest to `p`; of equally near ones, the
/// lowest index.
pub open spec fn nearest_centroid(p: LngLat, cents: Seq<LngLat>) -> int {
    first_min(distances(p, cents), cents.len() as int)
}

/// The assignment step: for each point the index of its nearest centroid.
pub open spec fn assign(pts: Seq<LngLat>, cents: Seq<LngLat>) -> Seq<usize> {
    Seq::new(pts.len(), |i: int| nearest_centroid(pts[i], cents) as usize)
}

/// Those of the first `n` points that carry label `j`, in order.
pub open spec fn cluster(pts: Seq<LngLat>, labels: Seq<usize>, j: int, n: int) -> Seq<LngLat>
    decreases n,
{
    if n <= 0 {
        Seq::empty()
    } else {
        let earlier = cluster(pts, labels, j, n - 1);
        if labels[n - 1] == j {
            earlier.push(pts[n - 1])
        } else {
            earlier
        }
    }
}

/// The update step: each centroid moves to the mean of the points assigned
/// to it; one that no point is assigned to stays where it is.
pub open spec fn recentered(pts: Seq<LngLat>, labels: Seq<usize>, cents: Seq<LngLat>) -> Seq<
    LngLat,
> {
    Seq::new(
        cents.len(),
        |j: int|
            {
                let own = cluster(pts, labels, j, pts.len() as int);
                if own.len() == 0 {
                    cents[j]
                } else {
                    mean(own)
                }
            },
    )
}

/// Whether two positions differ by less than the tolerance in each direction.
pub open spec fn close(a: LngLat, b: LngLat) -> bool {
    &&& -CONVERGENCE_TOLERANCE < a.0 - b.0 < CONVERGENCE_TOLERANCE
    &&& -CONVERGENCE_TOLERANCE < a.1 - b.1 < CONVERGENCE_TOLERANCE
}

/// Whether a round has left every centroid close to where it was.
pub open spec fn settled(cents: Seq<LngLat>, moved: Seq<LngLat>) -> bool {
    forall|j: int| 0 <= j < cents.len() ==> close(#[trigger] cents[j], moved[j])
}

/// The `k` seeds: the points at multiples of the stride `len / k`.
pub open spec fn seeds(pts: Seq<LngLat>, k: int) -> Seq<LngLat> {
    Seq::new(k as nat, |i: int| pts[(pts.len() as int / k) * i])
}

/// The labels after at most `rounds` rounds that start from `cents`.
///
/// A round assigns every point to its nearest centroid and re-centres. If
/// that leaves the centroids settled the labels stand; if not, the next
/// round starts from the moved centroids. With no round left the labels
/// are as they were.
pub open spec fn lloyd(
    pts: Seq<LngLat>,
    cents: Seq<LngLat>,
    labels: Seq<usize>,
    rounds: nat,
) -> Seq<usize>
    decreases rounds,
{
    if rounds == 0 {
        labels
    } else {
        let assigned = assign(pts, cents);
        let moved = recentered(pts, assigned, cents);
        if settled(cents, moved) {
            assigned
        } else {
            lloyd(pts, moved, assigned, (rounds - 1) as nat)
        }
    }
}

/// The group identifiers of a sequence of stops.
pub open spec fn groups(items: Seq<Item>) -> Seq<usize> {
    Seq::new(items.len(), |i: int| items[i].g)
}

/// The stops, each filed under the label at its index.
pub open spec fn relabeled(items: Seq<Item>, labels: Seq<usize>) -> Seq<Item> {
    Seq::new(items.len(), |i: int| items[i].in_group(labels[i]))
}

/// The number of clusters actually formed: `k`, but no more than there are
/// stops.
pub open spec fn effective_k(len: nat, k: usize) -> int {
    if len < k {
        len as int
    } else {
        k as int
    }
}

/// What the clusterer makes of `items`.
///
/// Asked for fewer than two groups, or given nothing, it changes nothing.
/// Otherwise the result lists the stops in order of position, each filed
/// under the index of the centroid it ended up with.
pub open spec fn clustered(items: Seq<Item>, k: usize, max_iters: usize) -> Seq<Item> {
    if k < 2 || items.len() == 0 {
        items
    } else {
        let sorted = sorted_by_position(items);
        let pts = positions(sorted);
        let start = seeds(pts, effective_k(items.len(), k));
        relabeled(sorted, lloyd(pts, start, groups(sorted), max_iters as nat))
    }
}

/// No cluster holds more points than were looked at.
pub proof fn lemma_cluster_len(pts: Seq<LngLat>, labels: Seq<usize>, j: int, n: int)
    requires
        0 <= n,
    ensures
        cluster(pts, labels, j, n).len() <= n,
    decreases n,
{
    if n > 0 {
        lemma_cluster_len(pts, labels, j, n - 1);
    }
}

/// Computes the position keys of the stops.
fn position_keys_of(items: &Vec<Item>) -> (keys: Vec<i128>)
    ensures
        key_values(keys@) == position_keys(items@),
{
    let mut keys: Vec<i128> = Vec::new();
    let mut i: usize = 0;
    while i < items.len()
        invariant
            0 <= i <= items.len(),
            keys.len() == i,
            forall|a: int|
                0 <= a < i ==> keys[a] as int == position_key(#[trigger] items[a].position()),
        decreases items.len() - i,
    {
        let lng: i128 = items[i].lng as i128 - i32::MIN as i128;
        let lat: i128 = items[i].lat as i128 - i32::MIN as i128;
        keys.push(lng * 0x1_0000_0000 + lat);
        i += 1;
    }
    assert(key_values(keys@) =~= position_keys(items@));
    keys
}

/// Finds the centroid nearest to `p`; of equally near ones, the first.
pub fn find_nearest_centroid(p: &LngLat, cents: &Vec<LngLat>) -> (j: usize)
    requires
        cents.len() > 0,
    ensures
        j == nearest_centroid(*p, cents@),
        j < cents.len(),
{
    let ghost keys = distances(*p, cents@);
    let mut best: usize = 0;
    let mut best_dist: u128 = squared_distance(p, &cents[0]);
    let mut i: usize = 1;
    while i < cents.len()
        invariant
            1 <= i <= cents.len(),
            keys == distances(*p, cents@),
            best == first_min(keys, i as int),
            0 <= best < i,
            best_dist == keys[best as int],
        decreases cents.len() - i,
    {
        let d = squared_distance(p, &cents[i]);
        if d < best_dist {
            best = i;
            best_dist = d;
        }
        i += 1;
    }
    best
}

/// Assigns every point to its nearest centroid.
pub fn assign_all(pts: &Vec<LngLat>, cents: &Vec<LngLat>) -> (labels: Vec<usize>)
    requires
        cents.len() > 0,
    ensures
        labels@ == assign(pts@, cents@),
        forall|i: int| 0 <= i < labels.len() ==> #[trigger] labels[i] < cents.len(),
{
    let mut labels: Vec<usize> = Vec::new();
    let mut i: usize = 0;
    while i < pts.len()
        invariant
            0 <= i <= pts.len(),
            cents.len() > 0,
            labels.len() == i,
            forall|a: int| 0 <= a < i ==> #[trigger] labels[a] == nearest_centroid(pts[a], cents@),
            forall|a: int| 0 <= a < i ==> #[trigger] labels[a] < cents.len(),
        decreases pts.len() - i,
    {
        let j = find_nearest_centroid(&pts[i], cents);
        labels.push(j);
        i += 1;
    }
    assert(labels@ =~= assign(pts@, cents@));
    labels
}

/// Whether the tallies for label `c` stand for the first `n` points: the
/// sums of their coordinates and their number.
pub open spec fn tallied(
    pts: Seq<LngLat>,
    labels: Seq<usize>,
    lngs: Seq<i128>,
    lats: Seq<i128>,
    counts: Seq<usize>,
    c: int,
    n: int,
) -> bool {
    let own = cluster(pts, labels, c, n);
    lngs[c] == sum_lng(own) && lats[c] == sum_lat(own) && counts[c] == own.len()
}

/// Moves every centroid to the mean of the points assigned to it; one that
/// no point is assigned to stays where it is.
pub fn recenter(pts: &Vec<LngLat>, labels: &Vec<usize>, cents: &Vec<LngLat>) -> (moved: Vec<LngLat>)
    requires
        labels.len() == pts.len(),
        forall|i: int| 0 <= i < labels.len() ==> #[trigger] labels[i] < cents.len(),
    ensures
        moved@ == recentered(pts@, labels@, cents@),
{
    let k = cents.len();
    let mut lngs: Vec<i128> = Vec::new();
    let mut lats: Vec<i128> = Vec::new();
    let mut counts: Vec<usize> = Vec::new();
    let mut j: usize = 0;
    while j < k
        invariant
            0 <= j <= k,
            lngs.len() == j,
            lats.len() == j,
            counts.len() == j,
            forall|c: int|
                0 <= c < j ==> #[trigger] tallied(pts@, labels@, lngs@, lats@, counts@, c, 0),
        decreases k - j,
    {
        let ghost before = (lngs@, lats@, counts@);
        lngs.push(0);
        lats.push(0);
        counts.push(0);
        proof {
            assert forall|c: int| 0 <= c < j + 1 implies #[trigger] tallied(
                pts@,
                labels@,
                lngs@,
                lats@,
                counts@,
                c,
                0,
            ) by {
                if c < j {
                    assert(tallied(pts@, labels@, before.0, before.1, before.2, c, 0));
                } else {
                    assert(cluster(pts@, labels@, c, 0).len() == 0);
                }
            }
        }
        j += 1;
    }
    let mut i: usize = 0;
    while i < pts.len()
        invariant
            0 <= i <= pts.len(),
            k == cents.len(),
            labels.len() == pts.len(),
            forall|a: int| 0 <= a < labels.len() ==> #[trigger] labels[a] < cents.len(),
            lngs.len() == k,
            lats.len() == k,
            counts.len() == k,
            forall|c: int|
                0 <= c < k ==> #[trigger] tallied(
                    pts@,
                    labels@,
                    lngs@,
                    lats@,
                    counts@,
                    c,
                    i as int,
                ),
        decreases pts.len() - i,
    {
        let c = labels[i];
        let ghost before = (lngs@, lats@, counts@);
        proof {
            let own = cluster(pts@, labels@, c as int, i as int);
            assert(tallied(pts@, labels@, lngs@, lats@, counts@, c as int, i as int));
            lemma_cluster_len(pts@, labels@, c as int, i as int);
            lemma_sum_bounds(own);
            lemma_sum_push(own, pts[i as int]);
            lemma_sum_bounds(own.push(pts[i as int]));
            lemma_product_bounds(own.len() as int + 1);
        }
        let lng = lngs[c] + pts[i].0 as i128;
        let lat = lats[c] + pts[i].1 as i128;
        let count = counts[c] + 1;
        lngs[c] = lng;
        lats[c] = lat;
        counts[c] = count;
        proof {
            assert forall|d: int| 0 <= d < k implies #[trigger] tallied(
                pts@,
                labels@,
                lngs@,
                lats@,
                counts@,
                d,
                i + 1,
            ) by {
                assert(tallied(pts@, labels@, before.0, before.1, before.2, d, i as int));
            }
        }
        i += 1;
    }
    let mut moved: Vec<LngLat> = Vec::new();
    let mut j: usize = 0;
    while j < k
        invariant
            0 <= j <= k,
            k == cents.len(),
            lngs.len() == k,
            lats.len() == k,
            counts.len() == k,
            moved.len() == j,
            forall|c: int|
                0 <= c < k ==> #[trigger] tallied(
                    pts@,
                    labels@,
                    lngs@,
                    lats@,
                    counts@,
                    c,
                    pts.len() as int,
                ),
            forall|c: int|
                0 <= c < j ==> #[trigger] moved[c] == recentered(pts@, labels@, cents@)[c],
        decreases k - j,
    {
        proof {
            assert(tallied(pts@, labels@, lngs@, lats@, counts@, j as int, pts.len() as int));
            lemma_sum_bounds(cluster(pts@, labels@, j as int, pts.len() as int));
        }
        if counts[j] > 0 {
            moved.push(LngLat(floor_mean(lngs[j], counts[j]), floor_mean(lats[j], counts[j])));
        } else {
            moved.push(cents[j]);
        }
        j += 1;
    }
    assert(moved@ =~= recentered(pts@, labels@, cents@));
    moved
}

/// Tells whether a round has left every centroid close to where it was.
pub fn has_settled(cents: &Vec<LngLat>, moved: &Vec<LngLat>) -> (yes: bool)
    requires
        cents.len() == moved.len(),
    ensures
        yes == settled(cents@, moved@),
{
    let mut j: usize = 0;
    while j < cents.len()
        invariant
            0 <= j <= cents.len(),
            cents.len() == moved.len(),
            forall|c: int| 0 <= c < j ==> close(#[trigger] cents[c], moved[c]),
        decreases cents.len() - j,
    {
        let dx: i64 = cents[j].0 as i64 - moved[j].0 as i64;
        let dy: i64 = cents[j].1 as i64 - moved[j].1 as i64;
        let tol: i64 = CONVERGENCE_TOLERANCE as i64;
        if !(-tol < dx && dx < tol && -tol < dy && dy < tol) {
            assert(!close(cents[j as int], moved[j as int]));
            return false;
        }
        j += 1;
    }
    true
}

/// Picks the `k` seeds from points in position order.
pub fn pick_seeds(pts: &Vec<LngLat>, k: usize) -> (start: Vec<LngLat>)
    requires
        0 < k <= pts.len(),
    ensures
        start@ == seeds(pts@, k as int),
        start.len() == k,
{
    let step = pts.len() / k;
    let mut start: Vec<LngLat> = Vec::new();
    let mut i: usize = 0;
    assert(step * k <= pts.len()) by (nonlinear_arith)
        requires
            step == pts.len() as int / k as int,
            k > 0,
    ;
    assert(step >= 1) by (nonlinear_arith)
        requires
            step == pts.len() as int / k as int,
            0 < k <= pts.len(),
    ;
    while i < k
        invariant
            0 <= i <= k,
            0 < k <= pts.len(),
            step == pts.len() as int / k as int,
            step * k <= pts.len(),
            step >= 1,
            start.len() == i,
            forall|a: int| 0 <= a < i ==> #[trigger] start[a] == pts[step * a],
        decreases k - i,
    {
        assert(0 <= step * i < pts.len()) by (nonlinear_arith)
            requires
                0 <= i < k,
                step * k <= pts.len(),
                step >= 1,
        ;
        start.push(pts[step * i]);
        i += 1;
    }
    assert(start@ =~= seeds(pts@, k as int));
    start
}

/// Clusters stops into up to `k` groups by k-means.
///
/// With `k` below two, or with no stops, the input comes back as it is.
/// Otherwise `k` is reduced to the number of stops if it exceeds it, the
/// stops are put in order of position, and seeds are taken from that order
/// at equal strides. Up to `max_iters` rounds follow; each assigns every
/// stop to its nearest centroid (of equally near ones the lowest index) and
/// moves every centroid to the mean of its stops, leaving in place a
/// centroid that has none. The rounds end early once a round moves no
/// centroid by `CONVERGENCE_TOLERANCE` or more in either direction.
///
/// The result lists the stops in order of position, each under the index
/// of its centroid. Groups may differ in size, and some may stay empty.
pub fn kmeans(items: Vec<Item>, k: usize, max_iters: usize) -> (out: Vec<Item>)
    ensures
        out@ == clustered(items@, k, max_iters),
        k < 2 ==> out@ == items@,
        out.len() == items.len(),
        stops(out@) == stops(items@),
{
    let n = items.len();
    if k < 2 || n == 0 {
        return items;
    }
    let kk = if n < k { n } else { k };
    let keys = position_keys_of(&items);
    let order = stable_order(&keys);
    let ghost sorted = sorted_by_position(items@);
    let mut pts: Vec<LngLat> = Vec::new();
    let mut labels: Vec<usize> = Vec::new();
    let mut a: usize = 0;
    while a < n
        invariant
            0 <= a <= n,
            n == items.len(),
            order@ == ranking(position_keys(items@)),
            is_ranking(position_keys(items@), order@, n as int),
            sorted == sorted_by_position(items@),
            pts.len() == a,
            labels.len() == a,
            forall|b: int| 0 <= b < a ==> #[trigger] pts[b] == sorted[b].position(),
            forall|b: int| 0 <= b < a ==> #[trigger] labels[b] == sorted[b].g,
        decreases n - a,
    {
        let it = &items[order[a]];
        pts.push(it.position());
        labels.push(it.g);
        a += 1;
    }
    assert(pts@ =~= positions(sorted));
    assert(labels@ =~= groups(sorted));
    let mut cents = pick_seeds(&pts, kk);
    let ghost target = lloyd(pts@, cents@, labels@, max_iters as nat);
    let mut round: usize = 0;
    let mut done = false;
    while round < max_iters && !done
        invariant
            0 <= round <= max_iters,
            cents.len() == kk,
            kk > 0,
            labels.len() == pts.len(),
            target == if done {
                labels@
            } else {
                lloyd(pts@, cents@, labels@, (max_iters - round) as nat)
            },
        decreases max_iters - round, if done { 0int } else { 1int },
    {
        labels = assign_all(&pts, &cents);
        let moved = recenter(&pts, &labels, &cents);
        if has_settled(&cents, &moved) {
            done = true;
        } else {
            cents = moved;
            round += 1;
        }
    }
    let mut out: Vec<Item> = Vec::new();
    let mut a: usize = 0;
    while a < n
        invariant
            0 <= a <= n,
            n == items.len(),
            labels.len() == n,
            order@ == ranking(position_keys(items@)),
            is_ranking(position_keys(items@), order@, n as int),
            sorted == sorted_by_position(items@),
            out.len() == a,
            forall|b: int| 0 <= b < a ==> #[trigger] out[b] == sorted[b].in_group(labels[b]),
        decreases n - a,
    {
        out.push(items[order[a]].copy_into_group(labels[a]));
        a += 1;
    }
    proof {
        assert(out@ =~= relabeled(sorted, labels@));
        lemma_clustered_keeps_stops(items@, k, max_iters);
    }
    out
}

/// Whether position `a` comes no later than position `b` when ordering by
/// longitude first and latitude second.
pub open spec fn not_after(a: LngLat, b: LngLat) -> bool {
    a.0 < b.0 || (a.0 == b.0 && a.1 <= b.1)
}

/// `sorted_by_position` sorts: positions never fall along its result, and
/// stops at one position stand in the order they had in `items`.
pub proof fn lemma_sorted_by_position(items: Seq<Item>)
    requires
        items.len() <= usize::MAX,
    ensures
        sorted_by_position(items).len() == items.len(),
        forall|a: int, b: int|
            0 <= a < b < items.len() ==> not_after(
                (#[trigger] sorted_by_position(items)[a]).position(),
                (#[trigger] sorted_by_position(items)[b]).position(),
            ),
        forall|a: int, b: int|
            #![trigger ranking(position_keys(items))[a], ranking(position_keys(items))[b]]
            0 <= a < b < items.len() && items[ranking(position_keys(items))[a] as int].position()
                == items[ranking(position_keys(items))[b] as int].position() ==> ranking(
                position_keys(items),
            )[a] < ranking(position_keys(items))[b],
{
    let keys = position_keys(items);
    let order = ranking(keys);
    lemma_ranking_ranks(keys, items.len() as int);
    assert forall|a: int, b: int| 0 <= a < b < items.len() implies not_after(
        (#[trigger] sorted_by_position(items)[a]).position(),
        (#[trigger] sorted_by_position(items)[b]).position(),
    ) by {
        assert(ranks_before(keys, order[a] as int, order[b] as int));
        lemma_position_key_orders(
            items[order[a] as int].position(),
            items[order[b] as int].position(),
        );
    }
    assert forall|a: int, b: int|
        #![trigger order[a], order[b]]
        0 <= a < b < items.len() && items[order[a] as int].position()
            == items[order[b] as int].position() implies order[a] < order[b] by {
        assert(ranks_before(keys, order[a] as int, order[b] as int));
    }
}

/// Relabelling leaves the stops themselves alone.
pub proof fn lemma_relabeled_keeps_stops(items: Seq<Item>, labels: Seq<usize>)
    ensures
        stops(relabeled(items, labels)) == stops(items),
{
    assert(blanked(relabeled(items, labels)) =~= blanked(items));
}

/// Putting the stops in order of position rearranges them and does no more.
pub proof fn lemma_sorted_keeps_stops(items: Seq<Item>)
    requires
        items.len() <= usize::MAX,
    ensures
        stops(sorted_by_position(items)) == stops(items),
        sorted_by_position(items).len() == items.len(),
{
    let keys = position_keys(items);
    let n = items.len() as int;
    let order = ranking(keys);
    let blank = blanked(items);
    lemma_ranking_ranks(keys, n);
    lemma_gather_permutes(blank, keys, n);
    assert(blank.take(n) =~= blank);
    assert(blanked(sorted_by_position(items)) =~= gather(blank, order));
}

/// The clusterer hands on exactly the stops it was given: as many, and
/// each with its name, address and position.
pub proof fn lemma_clustered_keeps_stops(items: Seq<Item>, k: usize, max_iters: usize)
    requires
        items.len() <= usize::MAX,
    ensures
        stops(clustered(items, k, max_iters)) == stops(items),
        clustered(items, k, max_iters).len() == items.len(),
{
    if !(k < 2 || items.len() == 0) {
        let sorted = sorted_by_position(items);
        let pts = positions(sorted);
        let start = seeds(pts, effective_k(items.len(), k));
        lemma_sorted_keeps_stops(items);
        lemma_relabeled_keeps_stops(sorted, lloyd(pts, start, groups(sorted), max_iters as nat));
    }
}

/// Once a round is run, every label is the index of a centroid.
pub proof fn lemma_lloyd_labels(
    pts: Seq<LngLat>,
    cents: Seq<LngLat>,
    labels: Seq<usize>,
    rounds: nat,
)
    requires
        rounds > 0,
        0 < cents.len() <= usize::MAX,
    ensures
        lloyd(pts, cents, labels, rounds).len() == pts.len(),
        forall|i: int|
            0 <= i < pts.len() ==> #[trigger] lloyd(pts, cents, labels, rounds)[i] < cents.len(),
    decreases rounds,
{
    let assigned = assign(pts, cents);
    let moved = recentered(pts, assigned, cents);
    assert forall|i: int| 0 <= i < pts.len() implies #[trigger] assigned[i] < cents.len() by {
        lemma_first_min(distances(pts[i], cents), cents.len() as int);
    }
    if !settled(cents, moved) {
        if rounds > 1 {
            lemma_lloyd_labels(pts, moved, assigned, (rounds - 1) as nat);
        } else {
            assert(lloyd(pts, moved, assigned, 0) == assigned);
        }
    }
}

/// With two groups or more asked for and a round or more allowed, the
/// clusterer files every stop under an identifier below the group count.
pub proof fn lemma_clustered_labels(items: Seq<Item>, k: usize, max_iters: usize)
    requires
        k >= 2,
        max_iters > 0,
        items.len() <= usize::MAX,
    ensures
        forall|i: int|
            0 <= i < clustered(items, k, max_iters).len() ==> (#[trigger] clustered(
                items,
                k,
                max_iters,
            )[i]).g < effective_k(items.len(), k),
{
    if items.len() > 0 {
        let sorted = sorted_by_position(items);
        let pts = positions(sorted);
        let start = seeds(pts, effective_k(items.len(), k));
        lemma_ranking_ranks(position_keys(items), items.len() as int);
        lemma_lloyd_labels(pts, start, groups(sorted), max_iters as nat);
    }
}

/// As many labels come out of the rounds as there are points, if as many
/// went in.
pub proof fn lemma_lloyd_len(pts: Seq<LngLat>, cents: Seq<LngLat>, labels: Seq<usize>, rounds: nat)
    requires
        labels.len() == pts.len(),
    ensures
        lloyd(pts, cents, labels, rounds).len() == pts.len(),
    decreases rounds,
{
    if rounds > 0 {
        let assigned = assign(pts, cents);
        let moved = recentered(pts, assigned, cents);
        if !settled(cents, moved) {
            lemma_lloyd_len(pts, moved, assigned, (rounds - 1) as nat);
        }
    }
}

/// Once a round is run, the labels that the points had before play no part.
pub proof fn lemma_lloyd_forgets(
    pts: Seq<LngLat>,
    cents: Seq<LngLat>,
    labels: Seq<usize>,
    others: Seq<usize>,
    rounds: nat,
)
    requires
        rounds > 0,
    ensures
        lloyd(pts, cents, labels, rounds) == lloyd(pts, cents, others, rounds),
{
}

/// Running the clusterer again on its own output, with the same group count
/// and round limit, reassigns nothing: the output comes back as it is.
pub proof fn lemma_clustered_is_stable(items: Seq<Item>, k: usize, max_iters: usize)
    requires
        items.len() <= usize::MAX,
    ensures
        clustered(clustered(items, k, max_iters), k, max_iters) == clustered(items, k, max_iters),
{
    if !(k < 2 || items.len() == 0) {
        let n = items.len() as int;
        let keys = position_keys(items);
        let order = ranking(keys);
        let sorted = sorted_by_position(items);
        let pts = positions(sorted);
        let start = seeds(pts, effective_k(items.len(), k));
        let labels = lloyd(pts, start, groups(sorted), max_iters as nat);
        let out = relabeled(sorted, labels);
        lemma_ranking_ranks(keys, n);
        lemma_lloyd_len(pts, start, groups(sorted), max_iters as nat);
        let keys2 = position_keys(out);
        assert forall|i: int, j: int| 0 <= i < j < n implies #[trigger] keys2[i]
            <= #[trigger] keys2[j] by {
            assert(keys2[i] == keys[order[i] as int]);
            assert(keys2[j] == keys[order[j] as int]);
            assert(ranks_before(keys, order[i] as int, order[j] as int));
        }
        lemma_ranking_of_ranked(keys2, n);
        assert(sorted_by_position(out) =~= out);
        assert(positions(out) =~= pts);
        assert(groups(out) =~= labels);
        if max_iters > 0 {
            lemma_lloyd_forgets(pts, start, labels, groups(sorted), max_iters as nat);
        }
        assert(relabeled(out, labels) =~= out);
    }
}

} // verus!
