use aoc25::day3::{self, joltage};
use aoc25::error::InputError;

const INPUT: &str = "987654321111111
811111111111119
234234234234278
818181911112111";

#[test]
fn day3() {
    assert_eq!(day3::part_one(INPUT), Ok(357));
    assert_eq!(day3::part_two(INPUT), Ok(3121910778619));
}

#[test]
fn day3_joltage() {
    assert_eq!(joltage(&vec![9, 8, 7, 6, 5, 4, 3, 2, 1, 1, 1, 1, 1, 1, 1], 1), 98,);
    assert_eq!(joltage(&vec![9, 8, 7, 6, 5, 4, 3, 2, 1, 1, 1, 1, 1, 1, 1], 11), 987654321111);

    assert_eq!(joltage(&vec![8, 1, 1, 1, 1, 1, 1, 1, 1, 1, 1, 1, 1, 1, 9], 1), 89);
    assert_eq!(joltage(&vec![8, 1, 1, 1, 1, 1, 1, 1, 1, 1, 1, 1, 1, 1, 9], 11), 811111111119);

    assert_eq!(joltage(&vec![2, 3, 4, 2, 3, 4, 2, 3, 4, 2, 3, 4, 2, 7, 8], 1), 78);
    assert_eq!(joltage(&vec![2, 3, 4, 2, 3, 4, 2, 3, 4, 2, 3, 4, 2, 7, 8], 11), 434234234278);

    assert_eq!(joltage(&vec![8, 1, 8, 1, 8, 1, 9, 1, 1, 1, 1, 2, 1, 1, 1], 1), 92);
    assert_eq!(joltage(&vec![8, 1, 8, 1, 8, 1, 9, 1, 1, 1, 1, 2, 1, 1, 1], 11), 888911112111);
}

#[test]
fn day3_short_lines_and_errors() {
    assert_eq!(joltage(&vec![], 3), 0);
    assert_eq!(joltage(&vec![4, 2], 3), 42);
    assert_eq!(joltage(&vec![1, 9, 1], 0), 9);
    assert_eq!(day3::part_one("12\n3x"), Err(InputError::Malformed { line: 1 }));
}
