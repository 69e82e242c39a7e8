use rust_mtsp::{kmeans, redistribute_clusters, tsp_by_groups, Item};

/// A worked example: stops as (longitude, latitude, group), the group count,
/// the capacity, and the order and grouping after each stage, stops named by
/// their index in the input.
struct Example {
    stops: &'static [(i32, i32, usize)],
    k: usize,
    capacity: usize,
    clustered: &'static [(usize, usize)],
    routed: &'static [(usize, usize)],
    rebalanced: &'static [(usize, usize)],
    status: &'static str,
}

fn given(example: &Example) -> Vec<Item> {
    example
        .stops
        .iter()
        .enumerate()
        .map(|(i, (lng, lat, g))| Item {
            name: format!("{}", i),
            addr: String::new(),
            lng: *lng,
            lat: *lat,
            g: *g,
        })
        .collect()
}

fn shape(items: &Vec<Item>) -> Vec<(usize, usize)> {
    items.iter().map(|it| (it.name.parse().unwrap(), it.g)).collect()
}

fn run(example: &Example) {
    let clustered = kmeans(given(example), example.k, 100);
    assert_eq!(shape(&clustered), example.clustered.to_vec());
    let routed = tsp_by_groups(clustered);
    assert_eq!(shape(&routed), example.routed.to_vec());
    let (rebalanced, status) = redistribute_clusters(routed, example.capacity);
    assert_eq!(shape(&rebalanced), example.rebalanced.to_vec());
    assert_eq!(status, example.status);
    for it in rebalanced.iter() {
        let index: usize = it.name.parse().unwrap();
        assert_eq!((it.lng, it.lat), (example.stops[index].0, example.stops[index].1));
    }
}

#[test]
fn worked_example_one() {
    run(&Example {
        stops: &[
            (-110000, -175000, 6), (180000, 155000, 4), (40000, -145000, 7),
            (-75000, -35000, 8), (165000, 90000, 3), (-105000, 45000, 5), (30000, -255000, 3),
            (140000, 180000, 7), (290000, 150000, 2), (40000, -165000, 6),
        ],
        k: 2,
        capacity: 5,
        clustered: &[
            (0, 0), (5, 0), (3, 0), (6, 0), (9, 0), (2, 0), (7, 1), (4, 1), (1, 1), (8, 1),
        ],
        routed: &[
            (0, 0), (3, 0), (5, 0), (2, 0), (9, 0), (6, 0), (7, 1), (1, 1), (4, 1), (8, 1),
        ],
        rebalanced: &[
            (0, 0), (3, 0), (5, 0), (9, 0), (6, 0), (7, 1), (1, 1), (4, 1), (8, 1), (2, 1),
        ],
        status: "redistribution completed",
    });
}

#[test]
fn worked_example_two() {
    run(&Example {
        stops: &[
            (-5000, -225000, 2), (185000, -95000, 6), (-90000, -80000, 3),
        ],
        k: 3,
        capacity: 4,
        clustered: &[
            (2, 0), (0, 1), (1, 2),
        ],
        routed: &[
            (2, 0), (0, 1), (1, 2),
        ],
        rebalanced: &[
            (2, 0), (0, 1), (1, 2),
        ],
        status: "no redistribution needed",
    });
}

#[test]
fn worked_example_three() {
    run(&Example {
        stops: &[
            (-100000, 60000, 3), (275000, 255000, 6), (-155000, -170000, 0),
            (175000, -160000, 0), (250000, -135000, 8), (-100000, 190000, 9),
            (210000, 150000, 6), (90000, -230000, 5),
        ],
        k: 3,
        capacity: 4,
        clustered: &[
            (2, 0), (0, 1), (5, 1), (7, 2), (3, 2), (6, 1), (4, 2), (1, 1),
        ],
        routed: &[
            (2, 0), (0, 1), (5, 1), (6, 1), (1, 1), (7, 2), (3, 2), (4, 2),
        ],
        rebalanced: &[
            (2, 0), (0, 1), (5, 1), (6, 1), (1, 1), (7, 2), (3, 2), (4, 2),
        ],
        status: "no redistribution needed",
    });
}

#[test]
fn worked_example_four() {
    run(&Example {
        stops: &[
            (-5000, -70000, 2), (-175000, -65000, 7), (80000, 235000, 2), (-135000, -55000, 9),
            (-85000, -90000, 7), (250000, -195000, 2), (-90000, 290000, 3), (70000, 135000, 1),
            (-240000, 300000, 2), (-300000, 275000, 2), (-20000, 150000, 3),
            (-80000, -155000, 1),
        ],
        k: 2,
        capacity: 2,
        clustered: &[
            (9, 0), (8, 0), (1, 1), (3, 1), (6, 0), (4, 1), (11, 1), (10, 0), (0, 1), (7, 0),
            (2, 0), (5, 1),
        ],
        routed: &[
            (9, 0), (8, 0), (6, 0), (10, 0), (7, 0), (2, 0), (1, 1), (3, 1), (4, 1), (11, 1),
            (0, 1), (5, 1),
        ],
        rebalanced: &[
            (9, 0), (8, 0), (6, 0), (10, 0), (7, 0), (2, 0), (1, 1), (3, 1), (4, 1), (11, 1),
            (0, 1), (5, 1),
        ],
        status: "some groups remain over capacity",
    });
}

#[test]
fn worked_example_five() {
    run(&Example {
        stops: &[
            (140000, -5000, 9), (-135000, 5000, 8), (260000, -25000, 6), (-175000, 235000, 1),
            (-110000, -110000, 4), (-215000, 60000, 4),
        ],
        k: 3,
        capacity: 2,
        clustered: &[
            (5, 0), (3, 0), (1, 1), (4, 1), (0, 2), (2, 2),
        ],
        routed: &[
            (5, 0), (3, 0), (1, 1), (4, 1), (0, 2), (2, 2),
        ],
        rebalanced: &[
            (5, 0), (3, 0), (1, 1), (4, 1), (0, 2), (2, 2),
        ],
        status: "no redistribution needed",
    });
}

#[test]
fn worked_example_six() {
    run(&Example {
        stops: &[
            (-165000, 270000, 3), (200000, -55000, 2), (25000, 240000, 3), (-100000, -75000, 0),
            (70000, 275000, 8), (-60000, 295000, 1), (-225000, -155000, 0), (30000, -220000, 3),
            (280000, 105000, 9), (290000, -245000, 8), (-190000, -150000, 7),
        ],
        k: 2,
        capacity: 4,
        clustered: &[
            (6, 0), (10, 0), (0, 1), (3, 0), (5, 1), (2, 1), (7, 0), (4, 1), (1, 0), (8, 1),
            (9, 0),
        ],
        routed: &[
            (6, 0), (10, 0), (3, 0), (7, 0), (1, 0), (9, 0), (0, 1), (5, 1), (2, 1), (4, 1),
            (8, 1),
        ],
        rebalanced: &[
            (6, 0), (10, 0), (3, 0), (7, 0), (1, 0), (9, 0), (0, 1), (5, 1), (2, 1), (4, 1),
            (8, 1),
        ],
        status: "some groups remain over capacity",
    });
}

#[test]
fn worked_example_seven() {
    run(&Example {
        stops: &[
            (-200000, -245000, 2), (95000, -235000, 9), (55000, 215000, 9),
            (100000, -285000, 9), (-235000, 55000, 2), (45000, 145000, 5),
            (-300000, -225000, 4), (-285000, -185000, 0), (-235000, 105000, 9),
            (130000, 95000, 3), (70000, -170000, 3), (-5000, -185000, 7),
        ],
        k: 4,
        capacity: 2,
        clustered: &[
            (6, 0), (7, 0), (4, 1), (8, 1), (0, 0), (11, 3), (5, 2), (2, 2), (10, 3), (1, 3),
            (3, 3), (9, 2),
        ],
        routed: &[
            (6, 0), (7, 0), (0, 0), (4, 1), (8, 1), (5, 2), (2, 2), (9, 2), (11, 3), (10, 3),
            (1, 3), (3, 3),
        ],
        rebalanced: &[
            (6, 0), (7, 0), (0, 0), (4, 1), (8, 1), (5, 2), (2, 2), (9, 2), (11, 3), (10, 3),
            (1, 3), (3, 3),
        ],
        status: "some groups remain over capacity",
    });
}

#[test]
fn worked_example_eight() {
    run(&Example {
        stops: &[
            (105000, -20000, 3), (-45000, 75000, 7), (250000, -35000, 9), (145000, -215000, 3),
            (-200000, -105000, 6), (-175000, 180000, 2), (-75000, -10000, 0),
            (-225000, -90000, 0),
        ],
        k: 3,
        capacity: 4,
        clustered: &[
            (7, 0), (4, 0), (5, 1), (6, 1), (1, 1), (0, 2), (3, 2), (2, 2),
        ],
        routed: &[
            (7, 0), (4, 0), (5, 1), (1, 1), (6, 1), (0, 2), (2, 2), (3, 2),
        ],
        rebalanced: &[
            (7, 0), (4, 0), (5, 1), (1, 1), (6, 1), (0, 2), (2, 2), (3, 2),
        ],
        status: "no redistribution needed",
    });
}

#[test]
fn worked_example_nine() {
    run(&Example {
        stops: &[
            (120000, -280000, 3), (85000, -5000, 8), (15000, 50000, 0), (-25000, -90000, 0),
            (25000, -85000, 8), (275000, 300000, 4),
        ],
        k: 4,
        capacity: 4,
        clustered: &[
            (3, 0), (2, 1), (4, 0), (1, 1), (0, 2), (5, 3),
        ],
        routed: &[
            (3, 0), (4, 0), (2, 1), (1, 1), (0, 2), (5, 3),
        ],
        rebalanced: &[
            (3, 0), (4, 0), (2, 1), (1, 1), (0, 2), (5, 3),
        ],
        status: "no redistribution needed",
    });
}

#[test]
fn worked_example_ten() {
    run(&Example {
        stops: &[
            (-235000, 225000, 6), (-260000, 260000, 2), (-190000, -285000, 5),
            (-105000, 285000, 4), (15000, -200000, 5),
        ],
        k: 2,
        capacity: 5,
        clustered: &[
            (1, 0), (0, 0), (2, 1), (3, 0), (4, 1),
        ],
        routed: &[
            (1, 0), (0, 0), (3, 0), (2, 1), (4, 1),
        ],
        rebalanced: &[
            (1, 0), (0, 0), (3, 0), (2, 1), (4, 1),
        ],
        status: "no redistribution needed",
    });
}

#[test]
fn worked_example_eleven() {
    run(&Example {
        stops: &[
            (90000, -95000, 2), (-280000, 190000, 1), (-225000, -70000, 6),
            (105000, -185000, 8), (150000, -240000, 0), (120000, -25000, 0),
            (215000, 280000, 4), (-155000, -225000, 5), (45000, 255000, 9),
            (-215000, -165000, 9),
        ],
        k: 3,
        capacity: 4,
        clustered: &[
            (1, 0), (2, 1), (9, 1), (7, 1), (8, 0), (0, 2), (3, 2), (5, 2), (4, 2), (6, 0),
        ],
        routed: &[
            (1, 0), (8, 0), (6, 0), (2, 1), (9, 1), (7, 1), (0, 2), (5, 2), (3, 2), (4, 2),
        ],
        rebalanced: &[
            (1, 0), (8, 0), (6, 0), (2, 1), (9, 1), (7, 1), (0, 2), (5, 2), (3, 2), (4, 2),
        ],
        status: "no redistribution needed",
    });
}

#[test]
fn worked_example_twelve() {
    run(&Example {
        stops: &[
            (-235000, 300000, 9), (150000, 145000, 4), (-25000, 55000, 2), (185000, -155000, 0),
            (25000, -225000, 3), (-60000, 40000, 9), (-40000, -15000, 9), (200000, -190000, 3),
            (50000, 285000, 4), (275000, 220000, 4), (75000, -75000, 7), (105000, -230000, 6),
        ],
        k: 2,
        capacity: 4,
        clustered: &[
            (0, 0), (5, 1), (6, 1), (2, 1), (4, 1), (8, 0), (10, 1), (11, 1), (1, 1), (3, 1),
            (7, 1), (9, 1),
        ],
        routed: &[
            (0, 0), (8, 0), (5, 1), (2, 1), (6, 1), (10, 1), (3, 1), (7, 1), (11, 1), (4, 1),
            (1, 1), (9, 1),
        ],
        rebalanced: &[
            (0, 0), (8, 0), (7, 0), (5, 0), (2, 1), (6, 1), (10, 1), (3, 1), (11, 1), (4, 1),
            (1, 1), (9, 1),
        ],
        status: "some groups remain over capacity",
    });
}

#[test]
fn worked_example_thirteen() {
    run(&Example {
        stops: &[
            (20000, 30000, 3), (-150000, 225000, 5), (-155000, -35000, 7), (65000, -105000, 4),
            (130000, 135000, 3), (-5000, 110000, 8), (-270000, -140000, 6), (225000, 115000, 3),
            (-135000, -40000, 8),
        ],
        k: 3,
        capacity: 3,
        clustered: &[
            (6, 0), (2, 1), (1, 1), (8, 1), (5, 1), (0, 2), (3, 2), (4, 2), (7, 2),
        ],
        routed: &[
            (6, 0), (2, 1), (8, 1), (5, 1), (1, 1), (0, 2), (3, 2), (4, 2), (7, 2),
        ],
        rebalanced: &[
            (6, 0), (8, 0), (0, 0), (2, 1), (5, 1), (1, 1), (3, 2), (4, 2), (7, 2),
        ],
        status: "redistribution completed",
    });
}

#[test]
fn worked_example_fourteen() {
    run(&Example {
        stops: &[
            (-120000, 140000, 8), (215000, 300000, 2), (185000, -245000, 8),
            (-160000, -5000, 9), (-125000, -115000, 3),
        ],
        k: 4,
        capacity: 3,
        clustered: &[
            (3, 0), (4, 1), (0, 0), (2, 3), (1, 2),
        ],
        routed: &[
            (3, 0), (0, 0), (4, 1), (1, 2), (2, 3),
        ],
        rebalanced: &[
            (3, 0), (0, 0), (4, 1), (1, 2), (2, 3),
        ],
        status: "no redistribution needed",
    });
}

#[test]
fn worked_example_fifteen() {
    run(&Example {
        stops: &[
            (-185000, 270000, 7), (215000, -70000, 0), (80000, 110000, 6), (140000, -260000, 2),
            (-240000, -30000, 9), (-95000, -180000, 1), (185000, 70000, 4),
            (-280000, 215000, 4), (125000, 240000, 8), (-180000, 300000, 6),
            (-195000, -180000, 7),
        ],
        k: 3,
        capacity: 3,
        clustered: &[
            (7, 1), (4, 0), (10, 0), (0, 1), (9, 1), (5, 0), (2, 2), (8, 2), (3, 2), (6, 2),
            (1, 2),
        ],
        routed: &[
            (4, 0), (10, 0), (5, 0), (7, 1), (0, 1), (9, 1), (2, 2), (6, 2), (1, 2), (3, 2),
            (8, 2),
        ],
        rebalanced: &[
            (4, 0), (10, 0), (5, 0), (7, 1), (0, 1), (9, 1), (2, 2), (6, 2), (1, 2), (3, 2),
            (8, 2),
        ],
        status: "some groups remain over capacity",
    });
}

#[test]
fn worked_example_sixteen() {
    run(&Example {
        stops: &[
            (-225000, -240000, 9), (-130000, -220000, 6), (200000, 75000, 1),
            (-160000, 180000, 9), (-150000, -195000, 4), (115000, 270000, 2),
            (220000, 140000, 6),
        ],
        k: 2,
        capacity: 4,
        clustered: &[
            (0, 0), (3, 1), (4, 0), (1, 0), (5, 1), (2, 1), (6, 1),
        ],
        routed: &[
            (0, 0), (4, 0), (1, 0), (3, 1), (5, 1), (6, 1), (2, 1),
        ],
        rebalanced: &[
            (0, 0), (4, 0), (1, 0), (3, 1), (5, 1), (6, 1), (2, 1),
        ],
        status: "no redistribution needed",
    });
}

#[test]
fn worked_example_seventeen() {
    run(&Example {
        stops: &[
            (-40000, -90000, 5), (50000, 225000, 3), (-290000, 85000, 4), (-60000, -215000, 9),
        ],
        k: 2,
        capacity: 3,
        clustered: &[
            (2, 0), (3, 1), (0, 1), (1, 1),
        ],
        routed: &[
            (2, 0), (3, 1), (0, 1), (1, 1),
        ],
        rebalanced: &[
            (2, 0), (3, 1), (0, 1), (1, 1),
        ],
        status: "no redistribution needed",
    });
}

#[test]
fn worked_example_eighteen() {
    run(&Example {
        stops: &[
            (210000, 275000, 4), (-165000, 260000, 8), (-220000, 145000, 6), (170000, 45000, 3),
            (-220000, 220000, 2), (130000, 140000, 3), (-140000, -285000, 9),
        ],
        k: 2,
        capacity: 5,
        clustered: &[
            (2, 0), (4, 0), (1, 0), (6, 1), (5, 0), (3, 0), (0, 0),
        ],
        routed: &[
            (2, 0), (4, 0), (1, 0), (5, 0), (3, 0), (0, 0), (6, 1),
        ],
        rebalanced: &[
            (2, 0), (4, 0), (1, 0), (3, 0), (0, 0), (6, 1), (5, 1),
        ],
        status: "redistribution completed",
    });
}

#[test]
fn worked_example_nineteen() {
    run(&Example {
        stops: &[
            (-35000, -280000, 7), (-205000, -125000, 5), (-5000, -80000, 4), (5000, 265000, 9),
        ],
        k: 3,
        capacity: 5,
        clustered: &[
            (1, 0), (0, 1), (2, 2), (3, 2),
        ],
        routed: &[
            (1, 0), (0, 1), (2, 2), (3, 2),
        ],
        rebalanced: &[
            (1, 0), (0, 1), (2, 2), (3, 2),
        ],
        status: "no redistribution needed",
    });
}

#[test]
fn worked_example_twenty() {
    run(&Example {
        stops: &[
            (135000, 280000, 4), (-185000, -55000, 7), (105000, -70000, 8), (10000, -70000, 2),
            (-260000, 20000, 8), (-130000, -175000, 2), (-20000, -5000, 5), (95000, -300000, 2),
            (170000, -230000, 6), (-270000, -120000, 1),
        ],
        k: 4,
        capacity: 1,
        clustered: &[
            (9, 0), (4, 1), (1, 1), (5, 1), (6, 2), (3, 2), (7, 3), (2, 2), (0, 2), (8, 3),
        ],
        routed: &[
            (9, 0), (4, 1), (1, 1), (5, 1), (6, 2), (3, 2), (2, 2), (0, 2), (7, 3), (8, 3),
        ],
        rebalanced: &[
            (9, 0), (4, 1), (1, 1), (5, 1), (6, 2), (3, 2), (2, 2), (0, 2), (7, 3), (8, 3),
        ],
        status: "some groups remain over capacity",
    });
}

#[test]
fn worked_example_twenty_one() {
    run(&Example {
        stops: &[
            (-5000, 300000, 3), (35000, 20000, 3), (125000, 105000, 5), (115000, 25000, 4),
        ],
        k: 4,
        capacity: 4,
        clustered: &[
            (0, 0), (1, 1), (3, 2), (2, 3),
        ],
        routed: &[
            (0, 0), (1, 1), (3, 2), (2, 3),
        ],
        rebalanced: &[
            (0, 0), (1, 1), (3, 2), (2, 3),
        ],
        status: "no redistribution needed",
    });
}

#[test]
fn worked_example_twenty_two() {
    run(&Example {
        stops: &[
            (-265000, 130000, 3), (130000, 165000, 8), (0, 155000, 3), (-105000, 115000, 5),
            (-140000, -90000, 0), (-215000, 95000, 8), (205000, 45000, 4), (-80000, -80000, 2),
            (-270000, -80000, 0), (95000, -100000, 5),
        ],
        k: 3,
        capacity: 5,
        clustered: &[
            (8, 0), (0, 0), (5, 0), (4, 1), (3, 0), (7, 1), (2, 2), (9, 1), (1, 2), (6, 2),
        ],
        routed: &[
            (8, 0), (5, 0), (0, 0), (3, 0), (4, 1), (7, 1), (9, 1), (2, 2), (1, 2), (6, 2),
        ],
        rebalanced: &[
            (8, 0), (5, 0), (0, 0), (3, 0), (4, 1), (7, 1), (9, 1), (2, 2), (1, 2), (6, 2),
        ],
        status: "no redistribution needed",
    });
}

#[test]
fn worked_example_twenty_three() {
    run(&Example {
        stops: &[
            (215000, -10000, 8), (-270000, -200000, 1), (200000, 5000, 4), (-50000, -270000, 6),
            (-175000, 135000, 2), (-215000, -70000, 0),
        ],
        k: 2,
        capacity: 3,
        clustered: &[
            (1, 0), (5, 0), (4, 0), (3, 1), (2, 1), (0, 1),
        ],
        routed: &[
            (1, 0), (5, 0), (4, 0), (3, 1), (0, 1), (2, 1),
        ],
        rebalanced: &[
            (1, 0), (5, 0), (4, 0), (3, 1), (0, 1), (2, 1),
        ],
        status: "no redistribution needed",
    });
}

#[test]
fn worked_example_twenty_four() {
    run(&Example {
        stops: &[
            (275000, -145000, 1), (-85000, 245000, 9), (-15000, -95000, 0), (170000, 130000, 9),
            (230000, 215000, 8), (-40000, 155000, 7), (-175000, -220000, 1), (25000, 130000, 6),
            (15000, -50000, 7), (-15000, 165000, 3),
        ],
        k: 3,
        capacity: 4,
        clustered: &[
            (6, 0), (1, 2), (5, 2), (2, 1), (9, 2), (8, 1), (7, 2), (3, 2), (4, 2), (0, 1),
        ],
        routed: &[
            (6, 0), (2, 1), (8, 1), (0, 1), (1, 2), (5, 2), (9, 2), (7, 2), (3, 2), (4, 2),
        ],
        rebalanced: &[
            (6, 0), (7, 0), (2, 1), (8, 1), (0, 1), (9, 1), (1, 2), (5, 2), (3, 2), (4, 2),
        ],
        status: "redistribution completed",
    });
}
