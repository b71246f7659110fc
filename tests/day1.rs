use aoc25::day1;
use aoc25::error::InputError;

const TEST_INPUT: &str = "L68
L30
R48
L5
R60
L55
L1
L99
R14
L82";

#[test]
fn day1() {
    assert_eq!(day1::part_one(TEST_INPUT), Ok(3));
    assert_eq!(day1::part_two(TEST_INPUT), Ok(6));
}

#[test]
fn day1_full_turns_count_each_pass() {
    // from 50, R1000 passes zero ten times and stops at 50
    assert_eq!(day1::part_two("R1000"), Ok(10));
    assert_eq!(day1::part_two("L1000"), Ok(10));
    // landing on zero counts once, leaving it does not count again
    assert_eq!(day1::part_two("L50\nL1"), Ok(1));
    assert_eq!(day1::part_one("L50\nR100"), Ok(2));
}

#[test]
fn day1_malformed() {
    assert_eq!(day1::part_one("L5\nX3"), Err(InputError::Malformed { line: 1 }));
    assert_eq!(day1::part_one("L5\n\nR3"), Err(InputError::Malformed { line: 1 }));
    assert_eq!(day1::part_one("R"), Err(InputError::Malformed { line: 0 }));
    assert_eq!(day1::part_two("R5\nL0"), Err(InputError::Malformed { line: 1 }));
    assert_eq!(day1::parse("L3\nR4\n"), Ok(vec![-3, 4]));
}

#[test]
fn day1_crlf_lines() {
    assert_eq!(day1::parse("L3\r\nR4\r\n"), Ok(vec![-3, 4]));
    assert_eq!(day1::part_one("L50\r\nR100"), Ok(2));
}
