use aoc25::day7;
use aoc25::error::InputError;

const INPUT: &str = ".......S.......
...............
.......^.......
...............
......^.^......
...............
.....^.^.^.....
...............
....^.^...^....
...............
...^.^...^.^...
...............
..^...^.....^..
...............
.^.^.^.^.^...^.
...............";

#[test]
fn day7() {
    assert_eq!(day7::part_one(INPUT), Ok(21));
    assert_eq!(day7::part_two(INPUT), Ok(40));
}

#[test]
fn day7_edges() {
    // a splitter at the left edge sends one beam off the grid
    assert_eq!(day7::part_one("S..\n^.."), Ok(1));
    assert_eq!(day7::part_two("S..\n^..\n.^."), Ok(3));
    assert_eq!(day7::part_two(".S.\n...\n"), Ok(1));
    // two splits sending beams onto the same place merge them in part one
    assert_eq!(day7::part_one("..S..\n..^..\n.^.^."), Ok(3));
    assert_eq!(day7::part_two("..S..\n..^..\n.^.^."), Ok(4));
}

#[test]
fn day7_missing_start() {
    assert_eq!(day7::part_one("...\n.^."), Err(InputError::Missing));
    assert_eq!(day7::part_two(""), Err(InputError::Missing));
}

#[test]
fn day7_paths_at_least_splits() {
    let one = day7::part_one(INPUT).unwrap();
    let two = day7::part_two(INPUT).unwrap();
    assert!(two >= one + 1);
    let merged = "..S..\n..^..\n.^.^.\n..^..";
    assert_eq!(day7::part_one(merged), Ok(4));
    assert_eq!(day7::part_two(merged), Ok(6));
}
