use aoc25::day8::{self, Circuits, Coords, Distance};
use aoc25::error::InputError;

const INPUT: &str = "162,817,812
57,618,57
906,360,560
592,479,940
352,342,300
466,668,158
542,29,236
431,825,988
739,650,466
52,470,668
216,146,977
819,987,18
117,168,530
805,96,715
346,949,466
970,615,88
941,993,340
862,61,35
984,92,344
425,690,689";

#[test]
fn day8() {
    assert_eq!(day8::solve_part_one(INPUT, 10), Ok(40));
    assert_eq!(day8::part_two(INPUT), Ok(25272));
}

#[test]
fn day8_dist_rounds_down() {
    let a = Coords { x: 0, y: 0, z: 0 };
    let b = Coords { x: 1, y: 1, z: 1 };
    assert_eq!(a.dist(&b), 1);
    let c = Coords { x: 3, y: 4, z: 12 };
    assert_eq!(a.dist(&c), 13);
    let d = Coords { x: -2, y: 2, z: 0 };
    assert_eq!(a.dist(&d), 2);
}

#[test]
fn day8_circuits_join_and_merge() {
    let mut c = Circuits::default();
    c.add(&Distance { distance: 1, a: 0, b: 1 });
    c.add(&Distance { distance: 1, a: 2, b: 3 });
    assert_eq!(c.top3(), Some(4));
    c.add(&Distance { distance: 2, a: 1, b: 2 });
    assert_eq!(c.circuits.len(), 1);
    assert!(c.one_big_circuit(4));
    c.add(&Distance { distance: 2, a: 4, b: 4 });
    assert_eq!(c.top3(), Some(4));
}

#[test]
fn day8_errors() {
    assert_eq!(day8::part_two("1,2,3"), Err(InputError::NoSolution));
    assert_eq!(day8::part_two("1,2,3\n1,2"), Err(InputError::Malformed { line: 1 }));
    assert_eq!(day8::part_one("1,2,3\n1,2,999999999999"), Err(InputError::Overflow));
    assert_eq!(day8::part_one("1,2\n1,2,3"), Err(InputError::Malformed { line: 0 }));
}

const CLUSTERS: &str = "0,0,0
1,0,0
0,1,0
1000,0,0
1001,0,0
1000,1,0
0,1000,0
1,1000,0
0,1001,0";

#[test]
fn day8_fewer_pairs_can_give_more() {
    assert_eq!(day8::solve_part_one(CLUSTERS, 9), Ok(27));
    assert_eq!(day8::solve_part_one(CLUSTERS, 10), Ok(18));
    assert_eq!(day8::solve_part_one(CLUSTERS, 36), Ok(9));
    assert_eq!(day8::solve_part_one(CLUSTERS, 0), Ok(1));
}

#[test]
fn day8_shortest_connections_keeps_smallest() {
    let coords = vec![
        Coords { x: 0, y: 0, z: 0 },
        Coords { x: 10, y: 0, z: 0 },
        Coords { x: 1, y: 0, z: 0 },
    ];
    let d = day8::shortest_connections(&coords, 2);
    assert_eq!(d.len(), 2);
    assert_eq!((d[0].distance, d[0].a, d[0].b), (1, 0, 2));
    assert_eq!((d[1].distance, d[1].a, d[1].b), (9, 1, 2));
    let all = day8::shortest_connections(&coords, usize::MAX);
    assert_eq!(all.len(), 3);
    assert_eq!((all[2].distance, all[2].a, all[2].b), (10, 0, 1));
}

#[test]
fn day8_large_coordinates_close_together() {
    let text = "4000000000000000000,0,0\n4000000000000000001,0,0";
    assert_eq!(day8::part_two(text), Ok(16000000000000000004000000000000000000));
    assert_eq!(day8::solve_part_one(text, 1), Ok(2));
    let far = vec![Coords { x: 0, y: 0, z: 0 }, Coords { x: 3037000500, y: 0, z: 0 }];
    assert!(!day8::check_pairs(&far));
    let near = vec![Coords { x: 0, y: 0, z: 0 }, Coords { x: 3037000499, y: 0, z: 0 }];
    assert!(day8::check_pairs(&near));
}
