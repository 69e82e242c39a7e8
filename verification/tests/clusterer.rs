use rust_mtsp::centroid::{centroid_of, floor_mean};
use rust_mtsp::clusterer::{
    assign_all, find_nearest_centroid, has_settled, pick_seeds, recenter, CONVERGENCE_TOLERANCE,
};
use rust_mtsp::model::{squared_distance, UNITS_PER_DEGREE};
use rust_mtsp::ranking::stable_order;
use rust_mtsp::{kmeans, Item, LngLat};

fn it(name: &str, lng: i32, lat: i32, g: usize) -> Item {
    Item { name: name.into(), addr: format!("{} street", name), lng, lat, g }
}

fn names_and_groups(items: &Vec<Item>) -> Vec<(String, usize)> {
    items.iter().map(|it| (it.name.clone(), it.g)).collect()
}

fn expect(pairs: &[(&str, usize)]) -> Vec<(String, usize)> {
    pairs.iter().map(|(n, g)| (n.to_string(), *g)).collect()
}

fn mixed() -> Vec<Item> {
    vec![
        it("p", 3, 1, 4),
        it("q", 1, 9, 5),
        it("r", 1, 2, 6),
        it("s", 3, 1, 7),
        it("t", -5, 0, 8),
        it("u", 1, 2, 9),
    ]
}

#[test]
fn kmeans_below_two_groups_returns_the_input() {
    assert_eq!(kmeans(mixed(), 0, 100), mixed());
    assert_eq!(kmeans(mixed(), 1, 100), mixed());
    assert_eq!(kmeans(mixed(), 1, 0), mixed());
}

#[test]
fn kmeans_of_nothing_is_nothing() {
    assert_eq!(kmeans(Vec::new(), 2, 100), Vec::<Item>::new());
    assert_eq!(kmeans(Vec::new(), 7, 0), Vec::<Item>::new());
}

#[test]
fn kmeans_forms_no_more_groups_than_there_are_stops() {
    let r = kmeans(vec![it("a", 5, 5, 7), it("b", 1, 1, 7)], 5, 100);
    assert_eq!(names_and_groups(&r), expect(&[("b", 0), ("a", 1)]));
}

#[test]
fn kmeans_without_rounds_only_sorts() {
    let r = kmeans(mixed(), 2, 0);
    assert_eq!(
        names_and_groups(&r),
        expect(&[("t", 8), ("r", 6), ("u", 9), ("q", 5), ("p", 4), ("s", 7)])
    );
}

#[test]
fn kmeans_one_round_assigns_to_the_seeds() {
    let r = kmeans(mixed(), 2, 1);
    assert_eq!(
        names_and_groups(&r),
        expect(&[("t", 0), ("r", 0), ("u", 0), ("q", 1), ("p", 0), ("s", 0)])
    );
}

#[test]
fn kmeans_three_groups_of_six() {
    let r = kmeans(mixed(), 3, 100);
    assert_eq!(
        names_and_groups(&r),
        expect(&[("t", 0), ("r", 1), ("u", 1), ("q", 1), ("p", 2), ("s", 2)])
    );
    assert_eq!(r[4].addr, "p street");
    assert_eq!((r[4].lng, r[4].lat), (3, 1));
}

#[test]
fn kmeans_sends_a_stop_between_two_centroids_to_the_nearer_seed_first() {
    let line = vec![it("l", 0, 0, 0), it("m", 10_000, 0, 0), it("r", 20_000, 0, 0)];
    let r = kmeans(line, 2, 1);
    assert_eq!(names_and_groups(&r), expect(&[("l", 0), ("m", 1), ("r", 1)]));
}

#[test]
fn kmeans_equally_near_centroids_resolve_to_the_lower_index() {
    // The seeds are the stops at 0 and at 20; the stop at 10 is as near to one as to the other.
    let line = vec![it("r", 20, 0, 3), it("l", 0, 0, 3), it("z", 20, 0, 3), it("m", 10, 0, 3)];
    let r = kmeans(line, 2, 1);
    assert_eq!(names_and_groups(&r), expect(&[("l", 0), ("m", 0), ("r", 1), ("z", 1)]));
}

#[test]
fn kmeans_leaves_a_centroid_without_stops_where_it_is() {
    let same = vec![it("a", 7, 7, 3), it("b", 7, 7, 4), it("c", 7, 7, 5)];
    let r = kmeans(same, 2, 100);
    assert_eq!(names_and_groups(&r), expect(&[("a", 0), ("b", 0), ("c", 0)]));
}

fn scattered() -> Vec<Item> {
    vec![
        it("n0", 200_000, 60_000, 0),
        it("n1", 130_000, 410_000, 0),
        it("n2", 200_000, 20_000, 0),
        it("n3", 10_000, 0, 0),
        it("n4", 500_000, 180_000, 0),
        it("n5", 460_000, 380_000, 0),
        it("n6", 200_000, 280_000, 0),
    ]
}

#[test]
fn kmeans_stops_at_the_round_limit() {
    assert_eq!(
        names_and_groups(&kmeans(scattered(), 2, 1)),
        expect(&[("n3", 0), ("n1", 1), ("n2", 1), ("n0", 1), ("n6", 1), ("n5", 1), ("n4", 1)])
    );
    assert_eq!(
        names_and_groups(&kmeans(scattered(), 2, 2)),
        expect(&[("n3", 0), ("n1", 1), ("n2", 0), ("n0", 1), ("n6", 1), ("n5", 1), ("n4", 1)])
    );
    assert_eq!(
        names_and_groups(&kmeans(scattered(), 2, 100)),
        expect(&[("n3", 0), ("n1", 1), ("n2", 0), ("n0", 0), ("n6", 1), ("n5", 1), ("n4", 1)])
    );
}

#[test]
fn kmeans_run_again_on_its_output_changes_nothing() {
    for k in 0..5 {
        for rounds in [0, 1, 2, 100] {
            let once = kmeans(scattered(), k, rounds);
            let twice = kmeans(once.clone(), k, rounds);
            assert_eq!(twice, once);
        }
    }
    let once = kmeans(mixed(), 3, 100);
    assert_eq!(kmeans(once.clone(), 3, 100), once);
}

#[test]
fn kmeans_keeps_every_stop() {
    let mut given: Vec<(String, String, i32, i32)> =
        mixed().into_iter().map(|it| (it.name, it.addr, it.lng, it.lat)).collect();
    let mut got: Vec<(String, String, i32, i32)> =
        kmeans(mixed(), 3, 100).into_iter().map(|it| (it.name, it.addr, it.lng, it.lat)).collect();
    given.sort();
    got.sort();
    assert_eq!(got, given);
}

#[test]
fn kmeans_labels_stay_below_the_group_count() {
    for k in 2..6 {
        let r = kmeans(scattered(), k, 100);
        assert_eq!(r.len(), 7);
        assert!(r.iter().all(|it| it.g < k));
    }
}

#[test]
fn kmeans_handles_the_largest_coordinates() {
    let far = vec![
        it("sw", i32::MIN, i32::MIN, 0),
        it("ne", i32::MAX, i32::MAX, 0),
        it("se", i32::MAX, i32::MIN, 0),
        it("nw", i32::MIN, i32::MAX, 0),
    ];
    let r = kmeans(far, 2, 100);
    assert_eq!(names_and_groups(&r), expect(&[("sw", 0), ("nw", 0), ("se", 1), ("ne", 1)]));
}

#[test]
fn tolerance_is_a_ten_thousandth_of_a_degree() {
    assert_eq!(UNITS_PER_DEGREE, 10_000_000);
    assert_eq!(CONVERGENCE_TOLERANCE, UNITS_PER_DEGREE / 10_000);
}

#[test]
fn squared_distance_is_exact() {
    assert_eq!(squared_distance(&LngLat(0, 0), &LngLat(3, 4)), 25);
    assert_eq!(squared_distance(&LngLat(-3, 7), &LngLat(-3, 7)), 0);
    assert_eq!(squared_distance(&LngLat(1, 1), &LngLat(-2, 5)), 25);
    assert_eq!(
        squared_distance(&LngLat(i32::MIN, i32::MIN), &LngLat(i32::MAX, i32::MAX)),
        2 * 4_294_967_295u128 * 4_294_967_295u128
    );
    assert_eq!(
        squared_distance(&LngLat(1_269_780_000, 375_665_000), &LngLat(1_267_052_000, 374_563_000)),
        2_728_000u128 * 2_728_000 + 1_102_000u128 * 1_102_000
    );
}

#[test]
fn floor_mean_rounds_down() {
    assert_eq!(floor_mean(7, 2), 3);
    assert_eq!(floor_mean(-7, 2), -4);
    assert_eq!(floor_mean(-8, 2), -4);
    assert_eq!(floor_mean(-1, 3), -1);
    assert_eq!(floor_mean(0, 5), 0);
    assert_eq!(floor_mean(2, 3), 0);
    assert_eq!(floor_mean(i32::MIN as i128 * 3, 3), i32::MIN);
    assert_eq!(floor_mean(i32::MAX as i128 * 3, 3), i32::MAX);
    assert_eq!(floor_mean(i32::MIN as i128 * 3 + 1, 3), i32::MIN);
}

#[test]
fn centroid_is_the_mean_rounded_down() {
    let members = vec![it("a", 0, 0, 0), it("b", 1, -1, 0), it("c", 4, -4, 0)];
    assert_eq!(centroid_of(&members), LngLat(1, -2));
    let one = vec![it("a", -17, 23, 0)];
    assert_eq!(centroid_of(&one), LngLat(-17, 23));
}

#[test]
fn stable_order_ranks_by_key_and_keeps_equal_keys_in_place() {
    assert_eq!(stable_order(&vec![3, 1, 2, 1]), vec![1, 3, 2, 0]);
    assert_eq!(stable_order(&vec![5, 5, 5]), vec![0, 1, 2]);
    assert_eq!(stable_order(&vec![-1, -3, 0]), vec![1, 0, 2]);
    assert_eq!(stable_order(&Vec::new()), Vec::<usize>::new());
    assert_eq!(stable_order(&vec![i128::MAX, i128::MIN, 0]), vec![1, 2, 0]);
}

#[test]
fn stable_order_agrees_with_a_stable_sort() {
    let mut keys: Vec<i128> = Vec::new();
    let mut seed: u64 = 12345;
    for _ in 0..1000 {
        seed = seed.wrapping_mul(6364136223846793005).wrapping_add(1442695040888963407);
        keys.push(((seed >> 33) % 50) as i128 - 25);
    }
    let mut expected: Vec<usize> = (0..keys.len()).collect();
    expected.sort_by_key(|i| keys[*i]);
    assert_eq!(stable_order(&keys), expected);
}

#[test]
fn seeds_stand_at_equal_strides() {
    let pts: Vec<LngLat> = (0..10).map(|i| LngLat(i * 10, -i)).collect();
    assert_eq!(pick_seeds(&pts, 3), vec![LngLat(0, 0), LngLat(30, -3), LngLat(60, -6)]);
    assert_eq!(pick_seeds(&pts, 10), pts);
    assert_eq!(pick_seeds(&pts, 1), vec![LngLat(0, 0)]);
    assert_eq!(
        pick_seeds(&pts, 4),
        vec![LngLat(0, 0), LngLat(20, -2), LngLat(40, -4), LngLat(60, -6)]
    );
}

#[test]
fn nearest_centroid_is_the_first_of_the_nearest() {
    let cents = vec![LngLat(10, 0), LngLat(-10, 0), LngLat(0, 3), LngLat(0, -3)];
    assert_eq!(find_nearest_centroid(&LngLat(0, 0), &cents), 2);
    assert_eq!(find_nearest_centroid(&LngLat(9, 0), &cents), 0);
    assert_eq!(find_nearest_centroid(&LngLat(0, -50), &cents), 3);
    let twins = vec![LngLat(5, 5), LngLat(5, 5)];
    assert_eq!(find_nearest_centroid(&LngLat(-7, 2), &twins), 0);
}

#[test]
fn assignment_labels_every_point() {
    let pts = vec![LngLat(0, 0), LngLat(10, 0), LngLat(4, 0), LngLat(5, 0), LngLat(6, 0)];
    let cents = vec![LngLat(0, 0), LngLat(10, 0)];
    assert_eq!(assign_all(&pts, &cents), vec![0, 1, 0, 0, 1]);
    assert_eq!(assign_all(&Vec::new(), &cents), Vec::<usize>::new());
}

#[test]
fn recentring_moves_centroids_to_the_mean_of_their_points() {
    let pts = vec![LngLat(0, 0), LngLat(10, -3), LngLat(4, 0), LngLat(5, -4), LngLat(7, 9)];
    let labels = vec![0, 2, 0, 0, 2];
    let cents = vec![LngLat(100, 100), LngLat(-8, 8), LngLat(50, 50)];
    assert_eq!(
        recenter(&pts, &labels, &cents),
        vec![LngLat(3, -2), LngLat(-8, 8), LngLat(8, 3)]
    );
}

#[test]
fn settled_means_moved_by_less_than_the_tolerance() {
    let at = vec![LngLat(0, 0), LngLat(5_000, -5_000)];
    assert!(has_settled(&at, &at));
    assert!(has_settled(&at, &vec![LngLat(999, -999), LngLat(5_999, -4_001)]));
    assert!(!has_settled(&at, &vec![LngLat(1_000, 0), LngLat(5_000, -5_000)]));
    assert!(!has_settled(&at, &vec![LngLat(0, 0), LngLat(5_000, -6_000)]));
    assert!(!has_settled(&at, &vec![LngLat(0, -1_000), LngLat(5_000, -5_000)]));
    assert!(has_settled(&Vec::new(), &Vec::new()));
    assert!(!has_settled(&vec![LngLat(i32::MIN, 0)], &vec![LngLat(i32::MAX, 0)]));
}

fn spread(scale: i32) -> Vec<Item> {
    vec![
        it("n0", 4 * scale, 8 * scale, 0),
        it("n1", 39 * scale, 39 * scale, 0),
        it("n2", 28 * scale, 8 * scale, 0),
        it("n3", 8 * scale, 0, 0),
        it("n4", 0, 13 * scale, 0),
    ]
}

#[test]
fn kmeans_ends_early_when_centroids_barely_move() {
    // Within a few hundred units every move is below the tolerance: one round settles it.
    assert_eq!(
        names_and_groups(&kmeans(spread(20), 2, 100)),
        expect(&[("n4", 0), ("n0", 0), ("n3", 1), ("n2", 1), ("n1", 0)])
    );
    assert_eq!(kmeans(spread(20), 2, 100), kmeans(spread(20), 2, 1));
    // The same layout a thousand times larger keeps moving its centroids.
    assert_eq!(
        names_and_groups(&kmeans(spread(20_000), 2, 100)),
        expect(&[("n4", 1), ("n0", 1), ("n3", 1), ("n2", 1), ("n1", 0)])
    );
}
