use rust_mtsp::grouping::{flatten, partition};
use rust_mtsp::{tsp_by_groups, tsp_nearest_neighbor, Item};

fn it(name: &str, lng: i32, lat: i32, g: usize) -> Item {
    Item { name: name.into(), addr: format!("{} street", name), lng, lat, g }
}

fn names(items: &Vec<Item>) -> Vec<String> {
    items.iter().map(|it| it.name.clone()).collect()
}

fn names_and_groups(items: &Vec<Item>) -> Vec<(String, usize)> {
    items.iter().map(|it| (it.name.clone(), it.g)).collect()
}

fn expect(pairs: &[(&str, usize)]) -> Vec<(String, usize)> {
    pairs.iter().map(|(n, g)| (n.to_string(), *g)).collect()
}

#[test]
fn tour_starts_at_the_first_stop_and_goes_to_the_nearest() {
    let stops = vec![
        it("s", 0, 0, 0),
        it("far", 100, 0, 0),
        it("near", 10, 0, 0),
        it("mid", 40, 0, 0),
        it("back", -20, 0, 0),
    ];
    let route = tsp_nearest_neighbor(stops);
    assert_eq!(names(&route), vec!["s", "near", "mid", "far", "back"]);
    assert_eq!(route[1], it("near", 10, 0, 0));
}

#[test]
fn tour_takes_the_earliest_of_equally_near_stops() {
    let stops = vec![it("s", 0, 0, 0), it("e", 10, 0, 0), it("w", -10, 0, 0), it("n", 0, 10, 0)];
    let route = tsp_nearest_neighbor(stops);
    assert_eq!(names(&route), vec!["s", "e", "n", "w"]);
}

#[test]
fn tour_measures_in_both_directions() {
    let stops = vec![it("s", 0, 0, 0), it("a", 30, 40, 0), it("b", 0, 49, 0), it("c", 51, 0, 0)];
    let route = tsp_nearest_neighbor(stops);
    assert_eq!(names(&route), vec!["s", "b", "a", "c"]);
}

#[test]
fn tour_of_nothing_or_of_one_stop_is_itself() {
    assert_eq!(tsp_nearest_neighbor(Vec::new()), Vec::<Item>::new());
    assert_eq!(tsp_nearest_neighbor(vec![it("only", 5, 6, 3)]), vec![it("only", 5, 6, 3)]);
}

#[test]
fn tour_keeps_equal_stops_apart() {
    let stops = vec![it("twin", 1, 1, 0), it("other", 9, 9, 0), it("twin", 1, 1, 0)];
    let route = tsp_nearest_neighbor(stops);
    assert_eq!(names(&route), vec!["twin", "twin", "other"]);
}

#[test]
fn tour_spans_the_whole_coordinate_range() {
    let stops = vec![
        it("sw", i32::MIN, i32::MIN, 0),
        it("ne", i32::MAX, i32::MAX, 0),
        it("nw", i32::MIN, i32::MAX, 0),
    ];
    assert_eq!(names(&tsp_nearest_neighbor(stops)), vec!["sw", "nw", "ne"]);
}

fn three_groups() -> Vec<Item> {
    vec![
        it("a", 0, 0, 5),
        it("b", 100, 0, 2),
        it("c", 50, 0, 5),
        it("d", 10, 0, 5),
        it("e", 0, 0, 9),
        it("f", 90, 0, 2),
        it("g", 300, 0, 2),
    ]
}

#[test]
fn router_tours_each_group_and_joins_them_by_ascending_identifier() {
    let routed = tsp_by_groups(three_groups());
    assert_eq!(
        names_and_groups(&routed),
        expect(&[("b", 2), ("f", 2), ("g", 2), ("a", 5), ("d", 5), ("c", 5), ("e", 9)])
    );
}

#[test]
fn router_only_rearranges_within_groups() {
    let given = three_groups();
    let routed = tsp_by_groups(three_groups());
    assert_eq!(routed.len(), given.len());
    for g in [0, 2, 5, 9] {
        let mut before: Vec<String> =
            given.iter().filter(|it| it.g == g).map(|it| it.name.clone()).collect();
        let mut after: Vec<String> =
            routed.iter().filter(|it| it.g == g).map(|it| it.name.clone()).collect();
        before.sort();
        after.sort();
        assert_eq!(after, before);
    }
}

#[test]
fn router_output_restricted_to_a_group_is_that_groups_tour() {
    let routed = tsp_by_groups(three_groups());
    for g in [2, 5, 9] {
        let members: Vec<Item> = three_groups().into_iter().filter(|it| it.g == g).collect();
        let part: Vec<Item> = routed.iter().filter(|it| it.g == g).cloned().collect();
        assert_eq!(part, tsp_nearest_neighbor(members));
    }
}

#[test]
fn router_passes_single_stops_and_nothing_through() {
    assert_eq!(tsp_by_groups(Vec::new()), Vec::<Item>::new());
    let singles = vec![it("z", 1, 1, 3), it("y", 2, 2, 1), it("x", 3, 3, 2)];
    assert_eq!(
        names_and_groups(&tsp_by_groups(singles)),
        expect(&[("y", 1), ("x", 2), ("z", 3)])
    );
}

#[test]
fn router_takes_the_largest_identifier() {
    let wide =
        vec![it("last", 0, 0, usize::MAX), it("first", 0, 0, 0), it("also", 1, 1, usize::MAX)];
    assert_eq!(
        names_and_groups(&tsp_by_groups(wide)),
        expect(&[("first", 0), ("last", usize::MAX), ("also", usize::MAX)])
    );
}

#[test]
fn partition_lists_groups_by_ascending_identifier_in_input_order() {
    let parts = partition(three_groups());
    let shape: Vec<(usize, Vec<String>)> = parts
        .iter()
        .map(|b| (b.id, b.members.iter().map(|it| it.name.clone()).collect()))
        .collect();
    assert_eq!(
        shape,
        vec![
            (2, vec!["b".to_string(), "f".to_string(), "g".to_string()]),
            (5, vec!["a".to_string(), "c".to_string(), "d".to_string()]),
            (9, vec!["e".to_string()]),
        ]
    );
    assert_eq!(
        names_and_groups(&flatten(parts)),
        expect(&[("b", 2), ("f", 2), ("g", 2), ("a", 5), ("c", 5), ("d", 5), ("e", 9)])
    );
}

#[test]
fn partition_of_nothing_has_no_groups() {
    assert_eq!(partition(Vec::new()).len(), 0);
    assert_eq!(flatten(Vec::new()), Vec::<Item>::new());
}
