use aoc25::day4;
use aoc25::error::InputError;

const INPUT: &str = "..@@.@@@@.
@@@.@.@.@@
@@@@@.@.@@
@.@@@@..@.
@@.@@@@.@@
.@@@@@@@.@
.@.@.@.@@@
@.@@@.@@@@
.@@@@@@@@.
@.@.@@@.@.";

#[test]
fn day4() {
    assert_eq!(day4::part_one(INPUT), Ok(13));
    assert_eq!(day4::part_two(INPUT), Ok(43));
}

#[test]
fn day4_small_grids() {
    // a full 3x3 block: the four corners have three neighbours each
    assert_eq!(day4::part_one("@@@\n@@@\n@@@"), Ok(4));
    // after the corners go, every remaining roll can be reached
    assert_eq!(day4::part_two("@@@\n@@@\n@@@"), Ok(9));
    assert_eq!(day4::part_two(""), Ok(0));
    assert_eq!(day4::part_two("...\n.@."), Ok(1));
}

#[test]
fn day4_malformed() {
    assert_eq!(day4::part_one("@.\n@x"), Err(InputError::Malformed { line: 1 }));
}

#[test]
fn day4_rounds_can_grow() {
    // rounds take 5, then 3, then 4 rolls
    assert_eq!(day4::part_one("@.@@@\n@@@@@\n.@.@@"), Ok(5));
    assert_eq!(day4::part_two("@.@@@\n@@@@@\n.@.@@"), Ok(12));
    assert_eq!(day4::part_two("@.@@@\n@@@@@\n.@.@@\n"), Ok(12));
}
